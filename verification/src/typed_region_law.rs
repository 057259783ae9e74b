//! Widths, regions and gadgets of typed programs, bit by bit.

use vstd::prelude::*;

use crate::circuit::VCircuit;
use crate::common::{IrType, IrTypeView, StorageId, TypeTable};
use crate::gadget::PortKind;
use crate::ir::{node_kinds, output_type, IRBlocks, IRTypeId, IRVarId, PrimType, Stmt, StmtView};
use crate::region::SelectorView;
use crate::typed_gadget::{
    body_error, body_var_type, data_place, data_ports, first_impurity, gadget_error, impurity,
    port_width, typed_aux_ports, typed_gadget_place, typed_port_views, widthless_port, word_types,
    TypedGadgetErrorView, TypedGadgetSpec, TypedPortView,
};
use crate::typed_region::{
    bit_width, cell_wires, has_layout, irblocks_anchor_error, layout_within, plane_wires,
    program_uses_typed, stmt_uses_typed, stmts_use_typed, structure_error, tuple_layout,
    typed_entry_error, typed_selected, typed_wires, var_width, vcircuit_anchor_error, Layout,
    TypedAnchor, TypedBoundaryWire, TypedEntryView, TypedRegionError,
};

verus! {

// ---------------------------------------------------------------------------
// Widths
// ---------------------------------------------------------------------------

proof fn lemma_deeper(table: Seq<IrTypeView>, id: IRTypeId, d: nat)
    ensures
        !(layout_within(table, id, d) is Undefined) ==> layout_within(table, id, d + 1)
            == layout_within(table, id, d),
    decreases d, 0nat,
{
    if d > 0 && id.0 < table.len() {
        match table[id.0 as int] {
            IrTypeView::Vec(n, elem) => {
                lemma_deeper(table, elem, (d - 1) as nat);
            },
            IrTypeView::Tuple(ids) => {
                lemma_deeper_tuple(table, ids, ids.len(), (d - 1) as nat);
            },
            _ => {},
        }
    }
}

proof fn lemma_deeper_tuple(table: Seq<IrTypeView>, ids: Seq<IRTypeId>, k: nat, d: nat)
    ensures
        !(tuple_layout(table, ids, k, d) is Undefined) ==> tuple_layout(table, ids, k, d + 1)
            == tuple_layout(table, ids, k, d),
    decreases d, k + 1,
{
    if k > 0 {
        lemma_deeper_tuple(table, ids, (k - 1) as nat, d);
        lemma_deeper(table, ids[k - 1], d);
    }
}

proof fn lemma_bounded(table: Seq<IrTypeView>, id: IRTypeId, d: nat)
    ensures
        layout_within(table, id, d) matches Layout::Bits(w) ==> w <= usize::MAX,
    decreases d, 0nat,
{
    if d > 0 && id.0 < table.len() {
        match table[id.0 as int] {
            IrTypeView::Tuple(ids) => {
                lemma_bounded_tuple(table, ids, ids.len(), (d - 1) as nat);
            },
            _ => {},
        }
    }
}

proof fn lemma_bounded_tuple(table: Seq<IrTypeView>, ids: Seq<IRTypeId>, k: nat, d: nat)
    ensures
        tuple_layout(table, ids, k, d) matches Layout::Bits(w) ==> w <= usize::MAX,
    decreases d, k + 1,
{
    if k > 0 {
        lemma_bounded_tuple(table, ids, (k - 1) as nat, d);
    }
}

/// The sum of widths.
pub open spec fn sum(widths: Seq<usize>) -> nat
    decreases widths.len(),
{
    if widths.len() == 0 {
        0
    } else {
        sum(widths.drop_last()) + widths.last() as nat
    }
}

proof fn lemma_tuple_sum(
    table: Seq<IrTypeView>,
    ids: Seq<IRTypeId>,
    k: nat,
    widths: Seq<usize>,
)
    requires
        table.len() > 0,
        k <= ids.len(),
        widths.len() == k,
        !(tuple_layout(table, ids, k, (table.len() - 1) as nat) is Undefined),
        forall|i: int| 0 <= i < k ==> bit_width(table, #[trigger] ids[i]) == Some(widths[i]),
    ensures
        tuple_layout(table, ids, k, (table.len() - 1) as nat) == Layout::Bits(sum(widths)),
    decreases k,
{
    let d = (table.len() - 1) as nat;
    if k > 0 {
        let n = (k - 1) as nat;
        lemma_tuple_sum(table, ids, n, widths.drop_last());
        lemma_deeper(table, ids[k - 1], d);
        lemma_bounded(table, ids[k - 1], table.len());
        assert(bit_width(table, ids[k - 1]) == Some(widths[k - 1]));
    }
}

/// The width of a type: of a primitive type that of its kind, of a repeated type
/// as many times that of its elements, at most the largest number, of a tuple
/// the sum of those of its parts, of a label none.
pub proof fn law_bit_width(types: TypeTable, id: IRTypeId, widths: Seq<usize>)
    requires
        id.0 < types.0@.len(),
        has_layout(types@, id),
    ensures
        match types.0@[id.0 as int] {
            IrType::Primitive(p) => bit_width(types@, id) == match p {
                PrimType::Bit => Some(1usize),
                PrimType::_8 => Some(8usize),
                PrimType::_16 => Some(16usize),
                PrimType::_32 => Some(32usize),
                PrimType::_64 => Some(64usize),
                PrimType::_128 => Some(128usize),
                PrimType::_256 => Some(256usize),
                PrimType::AES8 => Some(8usize),
                PrimType::Galois64 => Some(64usize),
                PrimType::Z3 => None,
            },
            IrType::Vec(n, elem) => has_layout(types@, elem) && match bit_width(types@, elem) {
                Some(w) => bit_width(types@, id) == Some(
                    if n * w > usize::MAX {
                        usize::MAX
                    } else {
                        (n * w) as usize
                    },
                ),
                None => bit_width(types@, id) is None,
            },
            IrType::Tuple(ids) => widths.len() == ids@.len() && (forall|i: int|
                0 <= i < widths.len() ==> bit_width(types@, #[trigger] ids@[i]) == Some(widths[i]))
                ==> sum(widths) <= usize::MAX && bit_width(types@, id) == Some(
                sum(widths) as usize,
            ),
            IrType::Block { .. } => bit_width(types@, id) == Some(0usize),
            IrType::Func { .. } => bit_width(types@, id) == Some(0usize),
        },
{
    let table = types@;
    assert(table[id.0 as int] == types.0@[id.0 as int]@);
    lemma_bounded(table, id, table.len());
    let d = (table.len() - 1) as nat;
    match types.0@[id.0 as int] {
        IrType::Vec(n, elem) => {
            lemma_deeper(table, elem, d);
            lemma_bounded(table, elem, table.len());
        },
        IrType::Tuple(ids) => {
            if widths.len() == ids@.len() && (forall|i: int|
                0 <= i < widths.len() ==> bit_width(types@, #[trigger] ids@[i]) == Some(
                    widths[i],
                )) {
                lemma_tuple_sum(table, ids@, ids@.len(), widths);
            }
        },
        _ => {},
    }
}

// ---------------------------------------------------------------------------
// Bits
// ---------------------------------------------------------------------------

/// Whether a bit is one of an anchor. A cell has `planes` bits.
pub open spec fn has_bit(a: TypedAnchor, planes: int, w: TypedBoundaryWire) -> bool {
    match (a, w) {
        (TypedAnchor::Input { param, start, len }, TypedBoundaryWire::Input { param: p, bit }) =>
            param == p && start <= bit < start + len,
        (
            TypedAnchor::BlockInput { block, param, start, len },
            TypedBoundaryWire::BlockInput { block: b, param: p, bit },
        ) => block == b && param == p && start <= bit < start + len,
        (
            TypedAnchor::FuncInput { func, param, start, len },
            TypedBoundaryWire::FuncInput { func: f, param: p, bit },
        ) => func == f && param == p && start <= bit < start + len,
        (TypedAnchor::Output { out, start, len }, TypedBoundaryWire::Output { out: o, bit }) =>
            out == o && start <= bit < start + len,
        (
            TypedAnchor::FuncOutput { func, result, start, len },
            TypedBoundaryWire::FuncOutput { func: f, result: r, bit },
        ) => func == f && result == r && start <= bit < start + len,
        (
            TypedAnchor::Storage { storage, ty, addr_start, addr_len },
            TypedBoundaryWire::Cell { storage: s, ty: t, addr, plane },
        ) => storage == s && ty == t && addr_start <= addr < addr_start + addr_len && plane < planes,
        _ => false,
    }
}

proof fn lemma_cells(
    storage: StorageId,
    ty: IRTypeId,
    start: u64,
    len: u64,
    planes: nat,
    w: TypedBoundaryWire,
)
    requires
        start + len <= u64::MAX,
        planes <= 0x1_0000,
    ensures
        cell_wires(storage, ty, start, len, planes).contains(w) <==> has_bit(
            TypedAnchor::Storage { storage, ty, addr_start: start, addr_len: len },
            planes as int,
            w,
        ),
    decreases planes,
{
    let a = TypedAnchor::Storage { storage, ty, addr_start: start, addr_len: len };
    let all = cell_wires(storage, ty, start, len, planes);
    if planes > 0 {
        let n = (planes - 1) as nat;
        lemma_cells(storage, ty, start, len, n, w);
        let before = cell_wires(storage, ty, start, len, n);
        let last = plane_wires(storage, ty, start, len, n as usize);
        if all.contains(w) {
            let k = choose|k: int| 0 <= k < all.len() && all[k] == w;
            if k < before.len() {
                assert(before[k] == w);
                assert(before.contains(w));
            } else {
                assert(last[k - before.len()] == w);
            }
        }
        if before.contains(w) {
            let k = choose|k: int| 0 <= k < before.len() && before[k] == w;
            assert(all[k] == w);
        }
        if has_bit(a, planes as int, w) && !has_bit(a, n as int, w) {
            if let TypedBoundaryWire::Cell { addr, plane, .. } = w {
                assert(last[addr - start] == w);
                assert(all[before.len() + (addr - start)] == w);
            }
        }
    } else {
        assert(!all.contains(w));
    }
}

/// The bits of an anchor are those of its kind and place from its start on;
/// those of a storage space are all bits of its cells.
pub proof fn law_typed_wires(a: TypedAnchor, planes: Option<usize>, w: TypedBoundaryWire)
    requires
        a.fits(),
        planes matches Some(n) ==> n <= 0x1_0000,
    ensures
        typed_wires(a, planes).contains(w) <==> has_bit(
            a,
            match planes {
                Some(n) => n as int,
                None => 0,
            },
            w,
        ),
{
    let ws = typed_wires(a, planes);
    match a {
        TypedAnchor::Storage { storage, ty, addr_start, addr_len } => match planes {
            Some(n) => {
                lemma_cells(storage, ty, addr_start, addr_len, n as nat, w);
            },
            None => {
                assert(!ws.contains(w));
            },
        },
        _ => {
            if ws.contains(w) {
                let k = choose|k: int| 0 <= k < ws.len() && ws[k] == w;
            }
            if has_bit(a, 0, w) {
                match w {
                    TypedBoundaryWire::Input { bit, .. } => {
                        assert(ws[bit - a.first()] == w);
                    },
                    TypedBoundaryWire::BlockInput { bit, .. } => {
                        assert(ws[bit - a.first()] == w);
                    },
                    TypedBoundaryWire::FuncInput { bit, .. } => {
                        assert(ws[bit - a.first()] == w);
                    },
                    TypedBoundaryWire::Output { bit, .. } => {
                        assert(ws[bit - a.first()] == w);
                    },
                    TypedBoundaryWire::FuncOutput { bit, .. } => {
                        assert(ws[bit - a.first()] == w);
                    },
                    _ => {},
                }
            }
        },
    }
}

/// Cells come plane by plane, and within a plane by their addresses.
pub proof fn law_cells_in_order(
    storage: StorageId,
    ty: IRTypeId,
    start: u64,
    len: u64,
    planes: nat,
    p: nat,
    i: int,
)
    requires
        p < planes,
        0 <= i < len,
    ensures
        cell_wires(storage, ty, start, len, planes).len() == planes * len,
        cell_wires(storage, ty, start, len, planes)[p * len + i] == (TypedBoundaryWire::Cell {
            storage,
            ty,
            addr: (start + i) as u64,
            plane: p as usize as u16,
        }),
    decreases planes,
{
    let n = (planes - 1) as nat;
    lemma_cells_len(storage, ty, start, len, planes);
    lemma_cells_len(storage, ty, start, len, n);
    let all = cell_wires(storage, ty, start, len, planes);
    let before = cell_wires(storage, ty, start, len, n);
    let last = plane_wires(storage, ty, start, len, n as usize);
    assert(all == before + last);
    if p < n {
        law_cells_in_order(storage, ty, start, len, n, p, i);
        assert(p * len + i < n * len) by (nonlinear_arith)
            requires
                p < n,
                0 <= i < len,
        ;
        assert(0 <= p * len + i) by (nonlinear_arith)
            requires
                0 <= p,
                0 <= i < len,
        ;
        assert(all[p * len + i] == before[p * len + i]);
    } else {
        assert(all[n * len + i] == last[i]);
    }
}

proof fn lemma_cells_len(storage: StorageId, ty: IRTypeId, start: u64, len: u64, planes: nat)
    ensures
        cell_wires(storage, ty, start, len, planes).len() == planes * len,
    decreases planes,
{
    if planes > 0 {
        lemma_cells_len(storage, ty, start, len, (planes - 1) as nat);
        assert((planes - 1) * len + len == planes * len) by (nonlinear_arith);
    } else {
        assert(planes * len == 0) by (nonlinear_arith)
            requires
                planes == 0,
        ;
    }
}

/// Two anchors meet exactly if they have a bit in common.
pub proof fn law_typed_meets(a: TypedAnchor, b: TypedAnchor)
    requires
        a.fits(),
        b.fits(),
        a.count() > 0,
        b.count() > 0,
    ensures
        a.meets(b) <==> exists|w: TypedBoundaryWire| #[trigger] has_bit(a, 1, w) && has_bit(b, 1, w),
{
    if a.meets(b) {
        let at = if a.first() < b.first() {
            b.first()
        } else {
            a.first()
        };
        match a {
            TypedAnchor::Input { param, .. } => {
                let w = TypedBoundaryWire::Input { param, bit: at as u16 };
                assert(has_bit(a, 1, w) && has_bit(b, 1, w));
            },
            TypedAnchor::BlockInput { block, param, .. } => {
                let w = TypedBoundaryWire::BlockInput { block, param, bit: at as u16 };
                assert(has_bit(a, 1, w) && has_bit(b, 1, w));
            },
            TypedAnchor::FuncInput { func, param, .. } => {
                let w = TypedBoundaryWire::FuncInput { func, param, bit: at as u16 };
                assert(has_bit(a, 1, w) && has_bit(b, 1, w));
            },
            TypedAnchor::Output { out, .. } => {
                let w = TypedBoundaryWire::Output { out, bit: at as u16 };
                assert(has_bit(a, 1, w) && has_bit(b, 1, w));
            },
            TypedAnchor::FuncOutput { func, result, .. } => {
                let w = TypedBoundaryWire::FuncOutput { func, result, bit: at as u16 };
                assert(has_bit(a, 1, w) && has_bit(b, 1, w));
            },
            TypedAnchor::Storage { storage, ty, .. } => {
                let w = TypedBoundaryWire::Cell { storage, ty, addr: at, plane: 0 };
                assert(has_bit(a, 1, w) && has_bit(b, 1, w));
            },
        }
    }
    if exists|w: TypedBoundaryWire| #[trigger] has_bit(a, 1, w) && has_bit(b, 1, w) {
        let w = choose|w: TypedBoundaryWire| #[trigger] has_bit(a, 1, w) && has_bit(b, 1, w);
        assert(a.space() == b.space());
    }
}

/// Anchors are in a strict total order: inputs, inputs of blocks, inputs of
/// functions, outputs, results of functions, cells; within a kind by what they
/// are of, then by their range.
pub proof fn law_typed_anchor_order(a: TypedAnchor, b: TypedAnchor, c: TypedAnchor)
    ensures
        !a.less(a),
        a.less(b) && b.less(c) ==> a.less(c),
        a != b ==> (a.less(b) <==> !b.less(a)),
        a is Input && b is BlockInput ==> a.less(b),
        a is BlockInput && b is FuncInput ==> a.less(b),
        a is FuncInput && b is Output ==> a.less(b),
        a is Output && b is FuncOutput ==> a.less(b),
        a is FuncOutput && b is Storage ==> a.less(b),
        match (a, b) {
            (
                TypedAnchor::Input { param: p, start: s, len: n },
                TypedAnchor::Input { param: q, start: t, len: m },
            ) => a.less(b) <==> p < q || (p == q && (s < t || (s == t && n < m))),
            (
                TypedAnchor::BlockInput { block: x, param: p, start: s, len: n },
                TypedAnchor::BlockInput { block: y, param: q, start: t, len: m },
            ) => a.less(b) <==> x.0 < y.0 || (x == y && (p < q || (p == q && (s < t || (s == t && n
                < m))))),
            (
                TypedAnchor::FuncInput { func: x, param: p, start: s, len: n },
                TypedAnchor::FuncInput { func: y, param: q, start: t, len: m },
            ) => a.less(b) <==> x < y || (x == y && (p < q || (p == q && (s < t || (s == t && n
                < m))))),
            (
                TypedAnchor::Output { out: p, start: s, len: n },
                TypedAnchor::Output { out: q, start: t, len: m },
            ) => a.less(b) <==> p < q || (p == q && (s < t || (s == t && n < m))),
            (
                TypedAnchor::FuncOutput { func: x, result: p, start: s, len: n },
                TypedAnchor::FuncOutput { func: y, result: q, start: t, len: m },
            ) => a.less(b) <==> x < y || (x == y && (p < q || (p == q && (s < t || (s == t && n
                < m))))),
            (
                TypedAnchor::Storage { storage: x, ty: p, addr_start: s, addr_len: n },
                TypedAnchor::Storage { storage: y, ty: q, addr_start: t, addr_len: m },
            ) => a.less(b) <==> x.0 < y.0 || (x == y && (p.0 < q.0 || (p == q && (s < t || (s == t
                && n < m))))),
            _ => true,
        },
{
}

/// Selected bits come entry by entry.
pub proof fn law_typed_selection_in_order(
    entries: Seq<TypedEntryView>,
    e: TypedEntryView,
    sel: SelectorView,
    planes: Seq<Option<usize>>,
)
    ensures
        typed_selected(Seq::empty(), sel, planes).len() == 0,
        sel.selects(e.regions) ==> typed_selected(entries.push(e), sel, planes) == typed_selected(
            entries,
            sel,
            planes,
        ) + typed_wires(e.anchor, planes[entries.len() as int]),
        !sel.selects(e.regions) ==> typed_selected(entries.push(e), sel, planes) == typed_selected(
            entries,
            sel,
            planes,
        ),
{
    assert(entries.push(e).drop_last() =~= entries);
}

// ---------------------------------------------------------------------------
// Tables
// ---------------------------------------------------------------------------

/// A table is in order exactly if every entry has regions and positions, stands
/// behind the one before it, ends at a number, and shares no position with the
/// one before it.
pub proof fn law_ordered_table(entries: Seq<TypedEntryView>)
    ensures
        structure_error(entries, 0) is None <==> forall|i: int|
            0 <= i < entries.len() ==> {
                &&& (#[trigger] entries[i]).regions.len() > 0
                &&& entries[i].anchor.count() > 0
                &&& entries[i].anchor.first() + entries[i].anchor.count() <= u64::MAX
                &&& i > 0 ==> entries[i - 1].anchor.less(entries[i].anchor)
                    && !entries[i - 1].anchor.meets(entries[i].anchor)
            },
{
    lemma_all_ordered(entries, 0);
    assert forall|i: int| 0 <= i < entries.len() implies (#[trigger] typed_entry_error(entries, i)
        is None <==> {
        &&& entries[i].regions.len() > 0
        &&& entries[i].anchor.count() > 0
        &&& entries[i].anchor.first() + entries[i].anchor.count() <= u64::MAX
        &&& i > 0 ==> entries[i - 1].anchor.less(entries[i].anchor) && !entries[i - 1].anchor.meets(
            entries[i].anchor,
        )
    }) by {}
    if structure_error(entries, 0) is None {
        assert forall|i: int| 0 <= i < entries.len() implies {
            &&& (#[trigger] entries[i]).regions.len() > 0
            &&& entries[i].anchor.count() > 0
            &&& entries[i].anchor.first() + entries[i].anchor.count() <= u64::MAX
            &&& i > 0 ==> entries[i - 1].anchor.less(entries[i].anchor)
                && !entries[i - 1].anchor.meets(entries[i].anchor)
        } by {
            assert(typed_entry_error(entries, i) is None);
        }
    } else if forall|i: int|
        0 <= i < entries.len() ==> {
            &&& (#[trigger] entries[i]).regions.len() > 0
            &&& entries[i].anchor.count() > 0
            &&& entries[i].anchor.first() + entries[i].anchor.count() <= u64::MAX
            &&& i > 0 ==> entries[i - 1].anchor.less(entries[i].anchor)
                && !entries[i - 1].anchor.meets(entries[i].anchor)
        } {
        assert forall|i: int| 0 <= i < entries.len() implies #[trigger] typed_entry_error(
            entries,
            i,
        ) is None by {
            assert(entries[i].regions.len() > 0);
        }
    }
}

proof fn lemma_all_ordered(entries: Seq<TypedEntryView>, from: int)
    requires
        0 <= from <= entries.len(),
    ensures
        structure_error(entries, from) is None <==> forall|i: int|
            from <= i < entries.len() ==> #[trigger] typed_entry_error(entries, i) is None,
    decreases entries.len() - from,
{
    if from < entries.len() {
        lemma_all_ordered(entries, from + 1);
        assert(typed_entry_error(entries, from) is None || typed_entry_error(entries, from) is Some);
    }
}

/// The first entry with which something is wrong is the one that is told of: no
/// regions, then the same anchor again, then its order, then its range, then
/// what it shares with the one before it.
pub proof fn law_first_typed_fault(entries: Seq<TypedEntryView>, i: int)
    requires
        0 <= i < entries.len(),
        structure_error(entries.take(i), 0) is None,
    ensures
        entries[i].regions.len() == 0 ==> structure_error(entries, 0) == Some(
            TypedRegionError::EmptyRegions(entries[i].anchor),
        ),
        entries[i].regions.len() > 0 && i > 0 && entries[i - 1].anchor == entries[i].anchor
            ==> structure_error(entries, 0) == Some(
            TypedRegionError::OverlappingEntries {
                first: entries[i].anchor,
                second: entries[i].anchor,
            },
        ),
        entries[i].regions.len() > 0 && i > 0 && entries[i].anchor.less(entries[i - 1].anchor)
            ==> structure_error(entries, 0) == Some(TypedRegionError::Unsorted),
        entries[i].regions.len() > 0 && (i > 0 ==> entries[i - 1].anchor.less(entries[i].anchor))
            && entries[i].anchor.count() == 0 ==> structure_error(entries, 0) == Some(
            TypedRegionError::EmptyAnchor(entries[i].anchor),
        ),
        entries[i].regions.len() > 0 && (i > 0 ==> entries[i - 1].anchor.less(entries[i].anchor))
            && entries[i].anchor.count() > 0 && entries[i].anchor.first() + entries[i].anchor.count()
            > u64::MAX ==> structure_error(entries, 0) == Some(
            TypedRegionError::StorageRangeOverflow { anchor: entries[i].anchor },
        ),
        entries[i].regions.len() > 0 && i > 0 && entries[i - 1].anchor.less(entries[i].anchor)
            && entries[i].anchor.count() > 0 && entries[i].anchor.first() + entries[i].anchor.count()
            <= u64::MAX && entries[i - 1].anchor.meets(entries[i].anchor) ==> structure_error(
            entries,
            0,
        ) == Some(
            TypedRegionError::OverlappingEntries {
                first: entries[i - 1].anchor,
                second: entries[i].anchor,
            },
        ),
{
    if i > 0 {
        law_typed_anchor_order(entries[i - 1].anchor, entries[i].anchor, entries[i].anchor);
    }
    lemma_typed_fault_at(entries, 0, i);
}

proof fn lemma_typed_fault_at(entries: Seq<TypedEntryView>, from: int, i: int)
    requires
        0 <= from <= i < entries.len(),
        structure_error(entries.take(i), from) is None,
    ensures
        typed_entry_error(entries, i) is Some ==> structure_error(entries, from)
            == typed_entry_error(entries, i),
    decreases i - from,
{
    if from < i {
        let t = entries.take(i);
        assert(t[from] == entries[from]);
        if from > 0 {
            assert(t[from - 1] == entries[from - 1]);
        }
        assert(typed_entry_error(t, from) == typed_entry_error(entries, from));
        lemma_typed_fault_at(entries, from + 1, i);
    }
}

/// What is said of a range of bits of an input, and of an anchor that a circuit
/// cannot have.
pub proof fn law_circuit_anchor(a: TypedAnchor, types: TypeTable, c: VCircuit)
    ensures
        match a {
            TypedAnchor::Input { param, start, len } => vcircuit_anchor_error(
                a,
                types@,
                c.params@,
                node_kinds(c.stmts@),
                c.outputs@,
            ) == (if param >= c.params@.len() {
                Some(TypedRegionError::UnknownCarrier { anchor: a })
            } else {
                match bit_width(types@, c.params@[param as int]) {
                    None => Some(TypedRegionError::UnknownCarrier { anchor: a }),
                    Some(w) => if start + len <= w {
                        None
                    } else {
                        Some(TypedRegionError::RangeOutOfRange { anchor: a, start, len, width: w })
                    },
                }
            }),
            TypedAnchor::Output { out, start, len } => {
                let e = vcircuit_anchor_error(
                    a,
                    types@,
                    c.params@,
                    node_kinds(c.stmts@),
                    c.outputs@,
                );
                if out >= c.outputs@.len() {
                    e == Some(TypedRegionError::UnknownCarrier { anchor: a })
                } else {
                    let v = c.outputs@[out as int].0;
                    let ty: Option<IRTypeId> = if v < c.params@.len() {
                        Some(c.params@[v as int])
                    } else if v - c.params@.len() < c.stmts@.len() {
                        output_type(c.stmts@[v - c.params@.len()].kind@)
                    } else {
                        None
                    };
                    match ty {
                        None => e == Some(TypedRegionError::UnknownCarrier { anchor: a }),
                        Some(t) => match bit_width(types@, t) {
                            None => e == Some(TypedRegionError::UnknownCarrier { anchor: a }),
                            Some(w) => if start + len <= w {
                                e is None
                            } else {
                                e == Some(
                                    TypedRegionError::RangeOutOfRange {
                                        anchor: a,
                                        start,
                                        len,
                                        width: w,
                                    },
                                )
                            },
                        },
                    }
                }
            },
            TypedAnchor::Storage { storage, ty, .. } => {
                let e = vcircuit_anchor_error(
                    a,
                    types@,
                    c.params@,
                    node_kinds(c.stmts@),
                    c.outputs@,
                );
                if exists|i: int|
                    0 <= i < c.stmts@.len() && match (#[trigger] c.stmts@[i]).kind {
                        Stmt::StorageRead { storage: s, ty: t, .. } => s == storage && t == ty,
                        Stmt::StorageWrite { storage: s, ty: t, .. } => s == storage && t == ty,
                        _ => false,
                    } {
                    e is None
                } else {
                    e == Some(TypedRegionError::UnknownStorageSpace { storage, ty })
                }
            },
            _ => vcircuit_anchor_error(a, types@, c.params@, node_kinds(c.stmts@), c.outputs@)
                == Some(TypedRegionError::UnsupportedAnchor { anchor: a, host: "VCircuit" }),
        },
{
    let stmts = node_kinds(c.stmts@);
    if let TypedAnchor::Storage { storage, ty, .. } = a {
        if stmts_use_typed(stmts, storage, ty) {
            let i = choose|i: int|
                0 <= i < stmts.len() && stmt_uses_typed(#[trigger] stmts[i], storage, ty);
            assert(stmts[i] == c.stmts@[i].kind@);
        }
        assert forall|i: int|
            0 <= i < c.stmts@.len() && match (#[trigger] c.stmts@[i]).kind {
                Stmt::StorageRead { storage: s, ty: t, .. } => s == storage && t == ty,
                Stmt::StorageWrite { storage: s, ty: t, .. } => s == storage && t == ty,
                _ => false,
            } implies stmts_use_typed(stmts, storage, ty) by {
            assert(stmts[i] == c.stmts@[i].kind@);
            assert(stmt_uses_typed(stmts[i], storage, ty));
        }
    }
}

/// What is said of an anchor of a program of blocks: inputs are the parameters of
/// the first block, and a storage space is one that some block reads or writes or
/// that is initialised.
pub proof fn law_program_anchor<P>(a: TypedAnchor, types: TypeTable, m: IRBlocks<P>)
    ensures
        match a {
            TypedAnchor::Input { param, start, len } => {
                let e = irblocks_anchor_error(a, types@, m@);
                if m.blocks@.len() == 0 || param >= m.blocks@[0].params@.len() {
                    e == Some(TypedRegionError::UnknownCarrier { anchor: a })
                } else {
                    match bit_width(types@, m.blocks@[0].params@[param as int]) {
                        None => e == Some(TypedRegionError::UnknownCarrier { anchor: a }),
                        Some(w) => if start + len <= w {
                            e is None
                        } else {
                            e == Some(
                                TypedRegionError::RangeOutOfRange { anchor: a, start, len, width: w },
                            )
                        },
                    }
                }
            },
            TypedAnchor::BlockInput { block, param, start, len } => {
                let e = irblocks_anchor_error(a, types@, m@);
                if block.0 >= m.blocks@.len() || param >= m.blocks@[block.0 as int].params@.len() {
                    e == Some(TypedRegionError::UnknownCarrier { anchor: a })
                } else {
                    match bit_width(types@, m.blocks@[block.0 as int].params@[param as int]) {
                        None => e == Some(TypedRegionError::UnknownCarrier { anchor: a }),
                        Some(w) => if start + len <= w {
                            e is None
                        } else {
                            e == Some(
                                TypedRegionError::RangeOutOfRange { anchor: a, start, len, width: w },
                            )
                        },
                    }
                }
            },
            TypedAnchor::Storage { storage, ty, .. } => irblocks_anchor_error(a, types@, m@) == (
            if program_uses_typed(m@, storage, ty) {
                None
            } else {
                Some(TypedRegionError::UnknownStorageSpace { storage, ty })
            }),
            _ => irblocks_anchor_error(a, types@, m@) == Some(
                TypedRegionError::UnsupportedAnchor { anchor: a, host: "IRBlocks" },
            ),
        },
{
    if m.blocks@.len() > 0 {
        assert(m@.blocks[0] == m.blocks@[0]@);
    }
    if let TypedAnchor::BlockInput { block, .. } = a {
        if block.0 < m.blocks@.len() {
            assert(m@.blocks[block.0 as int] == m.blocks@[block.0 as int]@);
        }
    }
}

/// A typed storage space is one of a program exactly if statement `i` of block
/// `b` reads or writes it for some of them, or segment `i` initialises it.
pub proof fn law_program_storage<P>(m: IRBlocks<P>, storage: StorageId, ty: IRTypeId, b: int, i: int)
    ensures
        0 <= b < m.blocks@.len() && 0 <= i < m.blocks@[b].stmts@.len() && (
        match m.blocks@[b].stmts@[i].kind {
            Stmt::StorageRead { storage: s, ty: t, .. } => s == storage && t == ty,
            Stmt::StorageWrite { storage: s, ty: t, .. } => s == storage && t == ty,
            _ => false,
        }) ==> program_uses_typed(m@, storage, ty),
        0 <= i < m.pre_init@.len() && m.pre_init@[i].storage == storage && m.pre_init@[i].ty == ty
            ==> program_uses_typed(m@, storage, ty),
        program_uses_typed(m@, storage, ty) ==> (exists|k: int|
            0 <= k < m.pre_init@.len() && (#[trigger] m.pre_init@[k]).storage == storage
                && m.pre_init@[k].ty == ty) || (exists|c: int, k: int|
            0 <= c < m.blocks@.len() && 0 <= k < m.blocks@[c].stmts@.len()
                && match (#[trigger] m.blocks@[c].stmts@[k]).kind {
                Stmt::StorageRead { storage: s, ty: t, .. } => s == storage && t == ty,
                Stmt::StorageWrite { storage: s, ty: t, .. } => s == storage && t == ty,
                _ => false,
            }),
{
    let v = m@;
    if 0 <= b < m.blocks@.len() && 0 <= i < m.blocks@[b].stmts@.len() {
        let stmts = v.blocks[b].stmts;
        assert(v.blocks[b] == m.blocks@[b]@);
        assert(stmts[i] == m.blocks@[b].stmts@[i].kind@);
        if stmt_uses_typed(stmts[i], storage, ty) {
            assert(stmts_use_typed(stmts, storage, ty));
        }
    }
    if 0 <= i < m.pre_init@.len() {
        assert(v.pre_init[i] == m.pre_init@[i]@);
    }
    if program_uses_typed(v, storage, ty) {
        if exists|k: int|
            0 <= k < v.pre_init.len() && (#[trigger] v.pre_init[k]).storage == storage
                && v.pre_init[k].ty == ty {
            let k = choose|k: int|
                0 <= k < v.pre_init.len() && (#[trigger] v.pre_init[k]).storage == storage
                    && v.pre_init[k].ty == ty;
            assert(v.pre_init[k] == m.pre_init@[k]@);
            assert(m.pre_init@[k].storage == storage);
        } else {
            let c = choose|c: int|
                0 <= c < v.blocks.len() && stmts_use_typed(
                    (#[trigger] v.blocks[c]).stmts,
                    storage,
                    ty,
                );
            let stmts = v.blocks[c].stmts;
            let k = choose|k: int|
                0 <= k < stmts.len() && stmt_uses_typed(#[trigger] stmts[k], storage, ty);
            assert(v.blocks[c] == m.blocks@[c]@);
            assert(stmts[k] == m.blocks@[c].stmts@[k].kind@);
        }
    }
}

/// The width of a variable of a circuit: of a parameter that of its type, of what
/// a statement defines that of what it defines.
pub proof fn law_variable_width(types: TypeTable, c: VCircuit, v: int)
    ensures
        0 <= v < c.params@.len() ==> var_width(types@, c.params@, node_kinds(c.stmts@), v)
            == bit_width(types@, c.params@[v]),
        c.params@.len() <= v < c.params@.len() + c.stmts@.len() ==> var_width(
            types@,
            c.params@,
            node_kinds(c.stmts@),
            v,
        ) == (match output_type(c.stmts@[v - c.params@.len()].kind@) {
            Some(ty) => bit_width(types@, ty),
            None => None,
        }),
        v >= c.params@.len() + c.stmts@.len() ==> var_width(
            types@,
            c.params@,
            node_kinds(c.stmts@),
            v,
        ) is None,
{
}

// ---------------------------------------------------------------------------
// Gadgets
// ---------------------------------------------------------------------------

/// The port of data is the first one of its kind.
pub proof fn law_data_port(ports: Seq<TypedPortView>, i: int)
    requires
        0 <= i <= ports.len(),
        i < ports.len() ==> ports[i].kind == PortKind::Data,
        forall|j: int| 0 <= j < i ==> (#[trigger] ports[j]).kind != PortKind::Data,
    ensures
        data_place(ports) == i,
    decreases ports.len(),
{
    if i > 0 {
        let rest = ports.drop_first();
        assert(ports[0].kind != PortKind::Data);
        assert forall|j: int| 0 <= j < i - 1 implies (#[trigger] rest[j]).kind != PortKind::Data by {
            assert(rest[j] == ports[j + 1]);
        }
        law_data_port(rest, i - 1);
    }
}

/// What one port more adds: its words behind those of the ports before it,
/// whatever its kind; one to the ports of data if it is one; its name and bits
/// if it is for outside material.
pub proof fn law_port_added(table: Seq<IrTypeView>, ports: Seq<TypedPortView>, p: TypedPortView)
    ensures
        word_types(Seq::empty()).len() == 0,
        data_ports(Seq::empty()) == 0,
        typed_aux_ports(table, Seq::empty()).len() == 0,
        word_types(ports.push(p)).len() == word_types(ports).len() + p.count,
        forall|i: int|
            0 <= i < word_types(ports).len() ==> #[trigger] word_types(ports.push(p))[i]
                == word_types(ports)[i],
        forall|i: int|
            word_types(ports).len() <= i < word_types(ports).len() + p.count
                ==> #[trigger] word_types(ports.push(p))[i] == p.ty,
        data_ports(ports.push(p)) == data_ports(ports) + (if p.kind == PortKind::Data {
            1int
        } else {
            0
        }),
        p.kind != PortKind::Aux ==> typed_aux_ports(table, ports.push(p)) == typed_aux_ports(
            table,
            ports,
        ),
        p.kind == PortKind::Aux ==> typed_aux_ports(table, ports.push(p)) == typed_aux_ports(
            table,
            ports,
        ).push(
            (
                p.name,
                match bit_width(table, p.ty) {
                    Some(w) => (p.count * w) as usize,
                    None => 0usize,
                },
            ),
        ),
        port_width(table, p) == match bit_width(table, p.ty) {
            Some(w) => Some(
                if p.count * w > usize::MAX {
                    usize::MAX
                } else {
                    (p.count * w) as usize
                },
            ),
            None => None,
        },
{
    let all = ports.push(p);
    assert(all.drop_last() =~= ports);
    assert(all.last() == p);
    if let Some(w) = bit_width(table, p.ty) {
        assert(w * p.count == p.count * w) by (nonlinear_arith);
    }
}

/// A gadget is found by its name; of several with one name the first is found.
pub proof fn law_typed_gadget_found(gadgets: Seq<TypedGadgetSpec>, name: Seq<char>, i: int)
    ensures
        0 <= i < gadgets.len() && gadgets[i].name@ == name && (forall|j: int|
            0 <= j < i ==> (#[trigger] gadgets[j]).name@ != name) ==> typed_gadget_place(
            gadgets,
            name,
        ) == i,
        (forall|j: int| 0 <= j < gadgets.len() ==> (#[trigger] gadgets[j]).name@ != name)
            ==> typed_gadget_place(gadgets, name) == gadgets.len(),
    decreases gadgets.len(),
{
    if gadgets.len() > 0 && gadgets[0].name@ != name {
        let rest = gadgets.drop_first();
        assert forall|j: int| 0 <= j < rest.len() implies #[trigger] rest[j] == gadgets[j + 1] by {}
        law_typed_gadget_found(rest, name, i - 1);
        if 0 < i < gadgets.len() {
            assert(rest[i - 1] == gadgets[i]);
        }
    }
}

/// The statements that only compute, and what is said of the others.
pub proof fn law_computing_statements(s: Stmt)
    ensures
        impurity(s@) is None <==> (s is Const || s is Transmute || s is Poly || s is Rol || s is Ror
            || s is Merge || s is Splat || s is Shuffle),
        s is StorageRead ==> impurity(s@) == Some("StorageRead"@),
        s is StorageWrite ==> impurity(s@) == Some("StorageWrite"@),
        s is OracleCall || s is OracleOutput ==> impurity(s@) == Some("Oracle"@),
        s is ActionCall || s is ActionOutput || s is ActionStore ==> impurity(s@) == Some(
            "Action"@,
        ),
        s is Rng ==> impurity(s@) == Some("Rng"@),
{
}

/// The first statement that does more than compute is the one that is told of.
pub proof fn law_first_impure(stmts: Seq<StmtView>, i: int)
    requires
        0 <= i <= stmts.len(),
        forall|j: int| 0 <= j < i ==> impurity(#[trigger] stmts[j]) is None,
        i < stmts.len() ==> impurity(stmts[i]) is Some,
    ensures
        first_impurity(stmts) == (if i < stmts.len() {
            impurity(stmts[i])
        } else {
            None
        }),
    decreases stmts.len(),
{
    if i > 0 {
        let rest = stmts.drop_first();
        assert(impurity(stmts[0]) is None);
        assert forall|j: int| 0 <= j < i - 1 implies impurity(#[trigger] rest[j]) is None by {
            assert(rest[j] == stmts[j + 1]);
        }
        law_first_impure(rest, i - 1);
    }
}

/// A body fits exactly if all its statements only compute, it takes the words of
/// the ports, and each output is a variable of the type of the data, one for
/// each word.
pub proof fn law_fitting_body(
    gadget: Seq<char>,
    params: Seq<IRTypeId>,
    stmts: Seq<StmtView>,
    outputs: Seq<IRVarId>,
    words: Seq<IRTypeId>,
    ty: IRTypeId,
    count: usize,
)
    ensures
        body_error(gadget, params, stmts, outputs, words, ty, count) is None <==> {
            &&& first_impurity(stmts) is None
            &&& params == words
            &&& outputs.len() == count
            &&& forall|i: int|
                0 <= i < outputs.len() ==> {
                    let v = (#[trigger] outputs[i]).0 as int;
                    ||| v < params.len() && params[v] == ty
                    ||| params.len() <= v < params.len() + stmts.len() && output_type(
                        stmts[v - params.len()],
                    ) == Some(ty)
                }
        },
        body_error(gadget, params, stmts, outputs, words, ty, count) matches Some(e) ==> match e {
            TypedGadgetErrorView::UnsupportedBodyStmt { gadget: g, stmt } => g == gadget
                && first_impurity(stmts) == Some(stmt),
            TypedGadgetErrorView::BodyParamMismatch { gadget: g, reason } => g == gadget && params
                != words && first_impurity(stmts) is None && reason
                == "body params must equal the flattened port words in declaration order"@,
            TypedGadgetErrorView::BodyOutputMismatch { gadget: g, reason } => g == gadget && params
                == words && first_impurity(stmts) is None && reason == (if outputs.len() != count {
                "body must output exactly one var per Data port word"@
            } else {
                "output var missing or of the wrong type"@
            }),
            _ => false,
        },
{
    if body_error(gadget, params, stmts, outputs, words, ty, count) is None {
        assert forall|i: int| 0 <= i < outputs.len() implies {
            let v = (#[trigger] outputs[i]).0 as int;
            ||| v < params.len() && params[v] == ty
            ||| params.len() <= v < params.len() + stmts.len() && output_type(
                stmts[v - params.len()],
            ) == Some(ty)
        } by {
            assert(body_var_type(params, stmts, outputs[i]) == Some(ty));
        }
    } else if first_impurity(stmts) is None && params == words && outputs.len() == count {
        let i = choose|i: int|
            0 <= i < outputs.len() && body_var_type(params, stmts, #[trigger] outputs[i]) != Some(
                ty,
            );
        assert(outputs[i] == outputs[i]);
    }
}

/// A gadget fits exactly if it has one port of data, every port has bits, and
/// its bodies fit.
pub proof fn law_fitting_gadget(spec: TypedGadgetSpec, table: Seq<IrTypeView>)
    ensures
        ({
            let ports = typed_port_views(spec.ports@);
            let data = ports[data_place(ports)];
            gadget_error(spec, table) is None <==> {
                &&& data_ports(ports) == 1
                &&& forall|i: int|
                    0 <= i < spec.ports@.len() ==> bit_width(table, (#[trigger] spec.ports@[i]).ty)
                        is Some
                &&& body_error(
                    spec.name@,
                    spec.encrypt.params@,
                    node_kinds(spec.encrypt.stmts@),
                    spec.encrypt.outputs@,
                    word_types(ports),
                    data.ty,
                    data.count,
                ) is None
                &&& match spec.decrypt {
                    Some(d) => body_error(
                        spec.name@,
                        d.params@,
                        node_kinds(d.stmts@),
                        d.outputs@,
                        word_types(ports),
                        data.ty,
                        data.count,
                    ) is None,
                    None => true,
                }
            }
        }),
        data_ports(typed_port_views(spec.ports@)) != 1 ==> gadget_error(spec, table) == Some(
            TypedGadgetErrorView::NotExactlyOneDataPort {
                gadget: spec.name@,
                found: data_ports(typed_port_views(spec.ports@)) as usize,
            },
        ),
{
    let ports = typed_port_views(spec.ports@);
    lemma_widths(table, ports, 0);
    assert forall|i: int| 0 <= i < ports.len() implies (#[trigger] ports[i]).ty
        == spec.ports@[i].ty by {}
    if forall|i: int| 0 <= i < ports.len() ==> bit_width(table, (#[trigger] ports[i]).ty) is Some {
        assert forall|i: int| 0 <= i < spec.ports@.len() implies bit_width(
            table,
            (#[trigger] spec.ports@[i]).ty,
        ) is Some by {
            assert(ports[i].ty == spec.ports@[i].ty);
        }
    }
}

proof fn lemma_widths(table: Seq<IrTypeView>, ports: Seq<TypedPortView>, from: int)
    requires
        0 <= from <= ports.len(),
    ensures
        widthless_port(table, ports, from) is None <==> forall|i: int|
            from <= i < ports.len() ==> bit_width(table, (#[trigger] ports[i]).ty) is Some,
    decreases ports.len() - from,
{
    if from < ports.len() {
        lemma_widths(table, ports, from + 1);
        assert(bit_width(table, ports[from].ty) is Some || bit_width(table, ports[from].ty) is None);
    }
}

} // verus!
