//! The initial storage of a virtualised typed module: the bytecode table, laid
//! out in lanes.

use vstd::prelude::*;

use crate::common::{
    pre_init_views, type_views, Constant, IrType, IrTypeView, PreInitSegment, PreInitView,
    StorageId, TypeId,
};
use crate::ir::{clone_pre_init, IRBlockView, IRBlocks, IRTypeId};
use crate::virt::bytecode::VirtBytecode;
use crate::virt::canon::{ir_key, make_zero_constant, zero_constant, IrHandlerKey};
use crate::virt::ctx::{key_views, DedupTable};
use crate::virt::regs::RegAlloc;
use crate::virt::schema::{
    arms_fit, compute_slot_values, const_u32, constant_of, handler_slots, slot_storages,
    slot_values, GlobalLayout,
};

verus! {

/// A lane: the values of one slot in every row.
pub open spec fn lane(storage: StorageId, ty: TypeId, data: Seq<Constant>) -> PreInitView {
    PreInitView { storage, ty, offset: 0, data }
}

/// The values of slot `s` of handler `h` in every row. Rows of other handlers
/// hold zero.
pub open spec fn slot_lane(
    rows: Seq<u32>,
    values: Seq<Seq<Constant>>,
    h: int,
    s: int,
) -> Seq<Constant> {
    Seq::new(
        rows.len(),
        |pc: int|
            if rows[pc] == h {
                values[pc][s]
            } else {
                zero_constant()
            },
    )
}

/// The lanes of the slots of handler `h`.
pub open spec fn handler_lanes(
    keys: Seq<IRBlockView>,
    addr_ty: IRTypeId,
    bit_ty: IRTypeId,
    base: StorageId,
    rows: Seq<u32>,
    values: Seq<Seq<Constant>>,
    h: int,
) -> Seq<PreInitView> {
    let slots = handler_slots(keys[h], addr_ty, bit_ty);
    Seq::new(
        slots.len(),
        |s: int|
            lane(
                slot_storages(keys, addr_ty, bit_ty, base, h)[s],
                slots[s].ty,
                slot_lane(rows, values, h, s),
            ),
    )
}

/// The lanes of the handler indices and of the slots of the first `n` handlers.
pub open spec fn table_lanes(
    keys: Seq<IRBlockView>,
    addr_ty: IRTypeId,
    bit_ty: IRTypeId,
    base: StorageId,
    rows: Seq<u32>,
    values: Seq<Seq<Constant>>,
    n: int,
) -> Seq<PreInitView>
    decreases n,
{
    if n <= 0 {
        seq![lane(base, addr_ty, rows.map_values(|h: u32| constant_of(h)))]
    } else {
        table_lanes(keys, addr_ty, bit_ty, base, rows, values, n - 1) + handler_lanes(
            keys,
            addr_ty,
            bit_ty,
            base,
            rows,
            values,
            n - 1,
        )
    }
}

/// The lanes with another one put in its place, by storage and then by type.
pub open spec fn with_lane(s: Seq<PreInitView>, l: PreInitView) -> Seq<PreInitView>
    decreases s.len(),
{
    if s.len() == 0 {
        seq![l]
    } else if s[0].storage == l.storage && s[0].ty == l.ty {
        seq![l] + s.drop_first()
    } else if l.storage.0 < s[0].storage.0 || (l.storage == s[0].storage && l.ty.0 < s[0].ty.0) {
        seq![l] + s
    } else {
        seq![s[0]] + with_lane(s.drop_first(), l)
    }
}

/// Put a lane in its place.
fn insert_lane(segments: &mut Vec<PreInitSegment>, l: PreInitSegment)
    ensures
        pre_init_views(final(segments)@) == with_lane(pre_init_views(old(segments)@), l@),
{
    let ghost all = pre_init_views(segments@);
    let mut i: usize = 0;
    assert(all.take(0) + with_lane(all.skip(0), l@) =~= with_lane(all, l@)) by {
        assert(all.skip(0) =~= all);
    }
    while i < segments.len()
        invariant
            i <= segments.len(),
            segments@ == old(segments)@,
            all == pre_init_views(segments@),
            all.take(i as int) + with_lane(all.skip(i as int), l@) == with_lane(all, l@),
        decreases segments.len() - i,
    {
        let ghost rest = all.skip(i as int);
        assert(rest[0] == segments@[i as int]@);
        assert(rest.drop_first() =~= all.skip(i + 1));
        let same: bool = segments[i].storage == l.storage && segments[i].ty == l.ty;
        let before: bool = l.storage.0 < segments[i].storage.0 || (l.storage
            == segments[i].storage && l.ty.0 < segments[i].ty.0);
        if same {
            let ghost lv = l@;
            segments.set(i, l);
            proof {
                assert(pre_init_views(segments@) =~= all.take(i as int) + (seq![lv]
                    + rest.drop_first()));
            }
            return ;
        }
        if before {
            let ghost lv = l@;
            segments.insert(i, l);
            proof {
                assert(pre_init_views(segments@) =~= all.take(i as int) + (seq![lv] + rest));
            }
            return ;
        }
        proof {
            assert(all.take(i + 1) =~= all.take(i as int).push(rest[0]));
            assert(all.take(i as int) + (seq![rest[0]] + with_lane(rest.drop_first(), l@))
                =~= all.take(i + 1) + with_lane(all.skip(i + 1), l@));
        }
        i += 1;
    }
    let ghost lv = l@;
    segments.push(l);
    proof {
        assert(all.skip(i as int) =~= Seq::empty());
        assert(pre_init_views(segments@) =~= all.take(i as int) + seq![lv]);
    }
}

/// Whether two segments share a cell.
pub open spec fn segments_overlap(a: PreInitView, b: PreInitView) -> bool {
    &&& a.storage == b.storage
    &&& a.ty == b.ty
    &&& a.offset < b.offset + b.data.len()
    &&& b.offset < a.offset + a.data.len()
}

/// Whether no segment of one list shares a cell with one of the other.
pub open spec fn segments_apart(a: Seq<PreInitView>, b: Seq<PreInitView>) -> bool {
    forall|i: int, j: int|
        0 <= i < a.len() && 0 <= j < b.len() ==> !segments_overlap(
            #[trigger] a[i],
            #[trigger] b[j],
        )
}

/// The segments of the input followed by those of the table.
pub fn merge_pre_init(input: &Vec<PreInitSegment>, virt: Vec<PreInitSegment>) -> (r: Vec<
    PreInitSegment,
>)
    requires
        segments_apart(pre_init_views(input@), pre_init_views(virt@)),
    ensures
        pre_init_views(r@) == pre_init_views(input@) + pre_init_views(virt@),
{
    let mut out = clone_pre_init(input);
    let ghost a = out@;
    let ghost b = virt@;
    let mut tail = virt;
    out.append(&mut tail);
    assert(pre_init_views(out@) =~= pre_init_views(a) + pre_init_views(b));
    out
}

/// The commitment lane: where it stands, and the hash of each row.
pub struct CommitmentPreInit<'a> {
    pub storage: StorageId,
    pub hash_output_ty: IRTypeId,
    pub per_block: &'a Vec<Constant>,
}

/// The commitment lane of an optional commitment.
pub open spec fn commitment_lane(c: Option<CommitmentPreInit>) -> Option<PreInitView> {
    match c {
        Some(p) => Some(lane(p.storage, p.hash_output_ty, p.per_block@)),
        None => None,
    }
}

/// The lanes of a table, with that of the commitment if there is one.
pub open spec fn storage_lanes(
    keys: Seq<IRBlockView>,
    addr_ty: IRTypeId,
    bit_ty: IRTypeId,
    base: StorageId,
    rows: Seq<u32>,
    values: Seq<Seq<Constant>>,
    commitment: Option<PreInitView>,
) -> Seq<PreInitView> {
    let lanes = table_lanes(keys, addr_ty, bit_ty, base, rows, values, keys.len() as int);
    match commitment {
        Some(l) => with_lane(lanes, l),
        None => lanes,
    }
}

/// The handler of each row of a table.
pub open spec fn table_rows(d: DedupTable<IrHandlerKey>) -> Seq<u32> {
    d.per_block@.map_values(|p: (u32, crate::virt::canon::BlockImmediates)| p.0)
}

/// What the slots of each block hold.
pub open spec fn table_values(blocks: Seq<IRBlockView>, types: Seq<IrTypeView>) -> Seq<
    Seq<Constant>,
> {
    blocks.map_values(|b: IRBlockView| slot_values(b, blocks, types))
}

/// Whether a table has, for each block, a handler with its key.
pub open spec fn table_covers(
    per_block: Seq<(u32, crate::virt::canon::BlockImmediates)>,
    keys: Seq<IRBlockView>,
    blocks: Seq<IRBlockView>,
) -> bool {
    &&& per_block.len() == blocks.len()
    &&& forall|i: int|
        0 <= i < blocks.len() ==> (#[trigger] per_block[i]).0 < keys.len()
            && keys[per_block[i].0 as int] == ir_key(blocks[i])
}

/// What the slots of every block hold.
pub fn all_slot_values<P>(
    blocks_in: &IRBlocks<P>,
    dedup: &DedupTable<IrHandlerKey>,
    layout: &GlobalLayout,
    reg_alloc: &RegAlloc,
    base: StorageId,
    addr_ty: IRTypeId,
    bit_ty: IRTypeId,
    ir_types: &Vec<IrType>,
) -> (r: Vec<Vec<Constant>>)
    requires
        layout.lays_out(key_views(dedup.handler_keys@), addr_ty, bit_ty, base),
        reg_alloc.assigns(blocks_in@.blocks, reg_alloc.base, type_views(ir_types@)),
        table_covers(dedup.per_block@, key_views(dedup.handler_keys@), blocks_in@.blocks),
        forall|i: int|
            0 <= i < blocks_in@.blocks.len() ==> arms_fit(
                #[trigger] blocks_in@.blocks[i],
                blocks_in@.blocks,
                type_views(ir_types@),
            ),
    ensures
        r@.map_values(|v: Vec<Constant>| v@) == table_values(
            blocks_in@.blocks,
            type_views(ir_types@),
        ),
{
    let ghost bv = blocks_in@.blocks;
    let ghost tv = type_views(ir_types@);
    let ghost keys = key_views(dedup.handler_keys@);
    let mut out: Vec<Vec<Constant>> = Vec::new();
    let mut i: usize = 0;
    while i < blocks_in.blocks.len()
        invariant
            i <= blocks_in.blocks.len(),
            bv == blocks_in@.blocks,
            tv == type_views(ir_types@),
            keys == key_views(dedup.handler_keys@),
            layout.lays_out(keys, addr_ty, bit_ty, base),
            reg_alloc.assigns(bv, reg_alloc.base, tv),
            table_covers(dedup.per_block@, keys, bv),
            forall|k: int| 0 <= k < bv.len() ==> arms_fit(#[trigger] bv[k], bv, tv),
            out@.len() == i,
            forall|k: int| 0 <= k < i ==> (#[trigger] out@[k])@ == slot_values(bv[k], bv, tv),
        decreases blocks_in.blocks.len() - i,
    {
        let h: usize = dedup.per_block[i].0 as usize;
        proof {
            assert(bv[i as int] == blocks_in.blocks@[i as int]@);
            assert(arms_fit(bv[i as int], bv, tv));
            assert(layout.schemas@[h as int].describes(keys[h as int], addr_ty, bit_ty));
        }
        out.push(
            compute_slot_values(
                &blocks_in.blocks[i],
                i,
                &layout.schemas[h],
                reg_alloc,
                ir_types,
                Ghost(bv),
                addr_ty,
                bit_ty,
            ),
        );
        i += 1;
    }
    assert(out@.map_values(|v: Vec<Constant>| v@) =~= table_values(bv, tv));
    out
}

/// The lanes of a table.
pub fn build_lanes(
    dedup: &DedupTable<IrHandlerKey>,
    layout: &GlobalLayout,
    values: &Vec<Vec<Constant>>,
    base: StorageId,
    addr_ty: IRTypeId,
    bit_ty: IRTypeId,
) -> (r: Vec<PreInitSegment>)
    requires
        layout.lays_out(key_views(dedup.handler_keys@), addr_ty, bit_ty, base),
        values@.len() == dedup.per_block@.len(),
        forall|i: int|
            0 <= i < values@.len() ==> (#[trigger] dedup.per_block@[i]).0
                < dedup.handler_keys@.len() && values@[i]@.len() == handler_slots(
                dedup.handler_keys@[dedup.per_block@[i].0 as int]@,
                addr_ty,
                bit_ty,
            ).len(),
    ensures
        pre_init_views(r@) == table_lanes(
            key_views(dedup.handler_keys@),
            addr_ty,
            bit_ty,
            base,
            table_rows(*dedup),
            values@.map_values(|v: Vec<Constant>| v@),
            dedup.handler_keys@.len() as int,
        ),
{
    let ghost keys = key_views(dedup.handler_keys@);
    let ghost rows = table_rows(*dedup);
    let ghost vals = values@.map_values(|v: Vec<Constant>| v@);
    let n: usize = values.len();
    let mut first: Vec<Constant> = Vec::new();
    let mut pc: usize = 0;
    while pc < n
        invariant
            pc <= n,
            n == dedup.per_block@.len(),
            rows == table_rows(*dedup),
            first@.len() == pc,
            forall|k: int| 0 <= k < pc ==> #[trigger] first@[k] == constant_of(rows[k]),
        decreases n - pc,
    {
        first.push(const_u32(dedup.per_block[pc].0));
        pc += 1;
    }
    assert(first@ =~= rows.map_values(|h: u32| constant_of(h)));
    let mut out: Vec<PreInitSegment> = Vec::new();
    out.push(PreInitSegment { storage: base, ty: addr_ty, offset: 0, data: first });
    assert(pre_init_views(out@) =~= table_lanes(keys, addr_ty, bit_ty, base, rows, vals, 0));
    let mut h: usize = 0;
    while h < dedup.handler_keys.len()
        invariant
            h <= dedup.handler_keys.len(),
            n == values@.len(),
            n == dedup.per_block@.len(),
            keys == key_views(dedup.handler_keys@),
            rows == table_rows(*dedup),
            vals == values@.map_values(|v: Vec<Constant>| v@),
            layout.lays_out(keys, addr_ty, bit_ty, base),
            forall|i: int|
                0 <= i < values@.len() ==> (#[trigger] dedup.per_block@[i]).0
                    < dedup.handler_keys@.len() && values@[i]@.len() == handler_slots(
                    dedup.handler_keys@[dedup.per_block@[i].0 as int]@,
                    addr_ty,
                    bit_ty,
                ).len(),
            pre_init_views(out@) == table_lanes(
                keys,
                addr_ty,
                bit_ty,
                base,
                rows,
                vals,
                h as int,
            ),
        decreases dedup.handler_keys.len() - h,
    {
        let schema = &layout.schemas[h];
        let ids = &layout.per_handler_slot[h];
        let ghost slots = handler_slots(keys[h as int], addr_ty, bit_ty);
        let ghost before = pre_init_views(out@);
        let ghost want = handler_lanes(keys, addr_ty, bit_ty, base, rows, vals, h as int);
        proof {
            assert(keys[h as int] == dedup.handler_keys@[h as int]@);
            assert(layout.schemas@[h as int].describes(keys[h as int], addr_ty, bit_ty));
            assert(layout.per_handler_slot@[h as int]@ == slot_storages(
                keys,
                addr_ty,
                bit_ty,
                base,
                h as int,
            ));
        }
        let mut s: usize = 0;
        assert(before + want.take(0) =~= before);
        while s < schema.slots.len()
            invariant
                s <= schema.slots.len(),
                h < dedup.handler_keys@.len(),
                n == values@.len(),
                n == dedup.per_block@.len(),
                keys == key_views(dedup.handler_keys@),
                rows == table_rows(*dedup),
                vals == values@.map_values(|v: Vec<Constant>| v@),
                slots == handler_slots(keys[h as int], addr_ty, bit_ty),
                schema.slots@ == slots,
                ids@ == slot_storages(keys, addr_ty, bit_ty, base, h as int),
                want == handler_lanes(keys, addr_ty, bit_ty, base, rows, vals, h as int),
                forall|i: int|
                    0 <= i < values@.len() ==> (#[trigger] dedup.per_block@[i]).0
                        < dedup.handler_keys@.len() && values@[i]@.len() == handler_slots(
                        dedup.handler_keys@[dedup.per_block@[i].0 as int]@,
                        addr_ty,
                        bit_ty,
                    ).len(),
                pre_init_views(out@) == before + want.take(s as int),
            decreases schema.slots.len() - s,
        {
            let mut data: Vec<Constant> = Vec::new();
            let mut pc: usize = 0;
            while pc < n
                invariant
                    pc <= n,
                    s < slots.len(),
                    h < dedup.handler_keys@.len(),
                    n == values@.len(),
                    n == dedup.per_block@.len(),
                    keys == key_views(dedup.handler_keys@),
                    rows == table_rows(*dedup),
                    vals == values@.map_values(|v: Vec<Constant>| v@),
                    slots == handler_slots(keys[h as int], addr_ty, bit_ty),
                    forall|i: int|
                        0 <= i < values@.len() ==> (#[trigger] dedup.per_block@[i]).0
                            < dedup.handler_keys@.len() && values@[i]@.len() == handler_slots(
                            dedup.handler_keys@[dedup.per_block@[i].0 as int]@,
                            addr_ty,
                            bit_ty,
                        ).len(),
                    data@.len() == pc,
                    forall|k: int|
                        0 <= k < pc ==> #[trigger] data@[k] == slot_lane(
                            rows,
                            vals,
                            h as int,
                            s as int,
                        )[k],
                decreases n - pc,
            {
                assert(rows[pc as int] == dedup.per_block@[pc as int].0);
                assert(vals[pc as int] == values@[pc as int]@);
                if dedup.per_block[pc].0 as usize == h {
                    data.push(values[pc][s]);
                } else {
                    data.push(make_zero_constant());
                }
                pc += 1;
            }
            assert(data@ =~= slot_lane(rows, vals, h as int, s as int));
            let segment = PreInitSegment {
                storage: ids[s],
                ty: schema.slots[s].ty,
                offset: 0,
                data,
            };
            let ghost shorter = out@;
            proof {
                assert(segment@ == want[s as int]);
                assert(want.take(s + 1) =~= want.take(s as int).push(want[s as int]));
            }
            out.push(segment);
            assert(pre_init_views(out@) =~= pre_init_views(shorter).push(want[s as int]));
            assert(pre_init_views(out@) =~= before + want.take(s + 1));
            s += 1;
        }
        assert(want.take(s as int) =~= want);
        h += 1;
    }
    out
}

/// The initial storage of a module and its bytecode table.
pub struct VirtStorageInit {
    pub pre_init: Vec<PreInitSegment>,
    pub bytecode: VirtBytecode,
}

/// Build the initial storage of a module.
pub fn build_ir_storage_init(
    dedup: &DedupTable<IrHandlerKey>,
    layout: &GlobalLayout,
    values: &Vec<Vec<Constant>>,
    bytecode_storage: StorageId,
    addr_ty: IRTypeId,
    bit_ty: IRTypeId,
    commitment: Option<CommitmentPreInit>,
) -> (r: VirtStorageInit)
    requires
        layout.lays_out(key_views(dedup.handler_keys@), addr_ty, bit_ty, bytecode_storage),
        values@.len() == dedup.per_block@.len(),
        forall|i: int|
            0 <= i < values@.len() ==> (#[trigger] dedup.per_block@[i]).0
                < dedup.handler_keys@.len() && values@[i]@.len() == handler_slots(
                dedup.handler_keys@[dedup.per_block@[i].0 as int]@,
                addr_ty,
                bit_ty,
            ).len(),
    ensures
        pre_init_views(r.pre_init@) == storage_lanes(
            key_views(dedup.handler_keys@),
            addr_ty,
            bit_ty,
            bytecode_storage,
            table_rows(*dedup),
            values@.map_values(|v: Vec<Constant>| v@),
            commitment_lane(commitment),
        ),
        r.bytecode@ == dedup.bytecode(),
{
    let mut pre_init = build_lanes(dedup, layout, values, bytecode_storage, addr_ty, bit_ty);
    if let Some(c) = commitment {
        insert_lane(
            &mut pre_init,
            PreInitSegment {
                storage: c.storage,
                ty: c.hash_output_ty,
                offset: 0,
                data: c.per_block.clone(),
            },
        );
    }
    VirtStorageInit { pre_init, bytecode: dedup.to_bytecode() }
}

} // verus!
