//! Regions and gadgets of boolean circuits, wire by wire.

use vstd::prelude::*;

use crate::boolar::{BIrStmt, LaneId};
use crate::circuit::BCircuit;
use crate::common::StorageId;
use crate::gadget::{
    aux_ports, first_data_width, gadget_place, width_before, AuxSource, GadgetSpec, PortKind,
    PortView,
};
use crate::region::{
    anchor_error, anchor_wires, entries_error, entry_error, host_of, overlap_error, regions_of,
    selected_wires, stmt_uses, BoundaryWire, Host, RegionEntryView, RegionError, RegionId,
    RegionSelector, SelectorView, WireAnchor,
};

verus! {

// ---------------------------------------------------------------------------
// Wires
// ---------------------------------------------------------------------------

/// Whether a wire is one of an anchor: of its kind and place, at or behind its
/// start, and before its end.
pub open spec fn has_wire(a: WireAnchor, w: BoundaryWire) -> bool {
    match (a, w) {
        (WireAnchor::Input { start, len }, BoundaryWire::Input(i)) => start <= i < start + len,
        (WireAnchor::Output { start, len }, BoundaryWire::Output(i)) => start <= i < start + len,
        (
            WireAnchor::Storage { storage, lane, start, len },
            BoundaryWire::Cell { storage: s, lane: l, addr },
        ) => storage == s && lane == l && start <= addr < start + len,
        _ => false,
    }
}

/// The wires of an anchor are listed from its start on, each once.
pub proof fn law_anchor_wires(a: WireAnchor, w: BoundaryWire, i: int)
    requires
        a.fits(),
    ensures
        anchor_wires(a).contains(w) <==> has_wire(a, w),
        match a {
            WireAnchor::Input { start, len } => anchor_wires(a).len() == len && (0 <= i < len
                ==> anchor_wires(a)[i] == BoundaryWire::Input((start + i) as u32)),
            WireAnchor::Output { start, len } => anchor_wires(a).len() == len && (0 <= i < len
                ==> anchor_wires(a)[i] == BoundaryWire::Output((start + i) as u32)),
            WireAnchor::Storage { storage, lane, start, len } => anchor_wires(a).len() == len && (0
                <= i < len ==> anchor_wires(a)[i] == BoundaryWire::Cell {
                storage,
                lane,
                addr: (start + i) as u64,
            }),
        },
{
    let ws = anchor_wires(a);
    if has_wire(a, w) {
        match (a, w) {
            (WireAnchor::Input { start, len }, BoundaryWire::Input(k)) => {
                assert(ws[k - start] == w);
            },
            (WireAnchor::Output { start, len }, BoundaryWire::Output(k)) => {
                assert(ws[k - start] == w);
            },
            (
                WireAnchor::Storage { storage, lane, start, len },
                BoundaryWire::Cell { storage: s, lane: l, addr },
            ) => {
                assert(ws[addr - start] == w);
            },
            _ => {},
        }
    }
    if ws.contains(w) {
        let k = choose|k: int| 0 <= k < ws.len() && ws[k] == w;
        assert(has_wire(a, w));
    }
}

/// Two anchors meet exactly if they have a wire in common.
pub proof fn law_meets(a: WireAnchor, b: WireAnchor)
    requires
        a.fits(),
        b.fits(),
        a.count() > 0,
        b.count() > 0,
    ensures
        a.meets(b) <==> exists|w: BoundaryWire| #[trigger] has_wire(a, w) && has_wire(b, w),
{
    if a.meets(b) {
        match (a, b) {
            (WireAnchor::Input { start: x, .. }, WireAnchor::Input { start: y, .. }) => {
                let w = BoundaryWire::Input(if x < y { y } else { x });
                assert(has_wire(a, w) && has_wire(b, w));
            },
            (WireAnchor::Output { start: x, .. }, WireAnchor::Output { start: y, .. }) => {
                let w = BoundaryWire::Output(if x < y { y } else { x });
                assert(has_wire(a, w) && has_wire(b, w));
            },
            (
                WireAnchor::Storage { storage, lane, start: x, .. },
                WireAnchor::Storage { start: y, .. },
            ) => {
                let w = BoundaryWire::Cell { storage, lane, addr: if x < y { y } else { x } };
                assert(has_wire(a, w) && has_wire(b, w));
            },
            _ => {},
        }
    }
}

/// Anchors are in a strict total order.
pub proof fn law_anchor_order(a: WireAnchor, b: WireAnchor, c: WireAnchor)
    ensures
        !a.less(a),
        a.less(b) && b.less(c) ==> a.less(c),
        a != b ==> (a.less(b) <==> !b.less(a)),
        a is Input && b is Output ==> a.less(b),
        a is Output && b is Storage ==> a.less(b),
        a.same_space(b) && a.first() < b.first() ==> a.less(b),
        a.same_space(b) && a.first() == b.first() && a.count() < b.count() ==> a.less(b),
        match (a, b) {
            (
                WireAnchor::Storage { storage: s, lane: l, .. },
                WireAnchor::Storage { storage: t, lane: m, .. },
            ) => (s.0 < t.0 ==> a.less(b)) && (s == t && l.0 < m.0 ==> a.less(b)),
            _ => true,
        },
{
}

/// A circuit uses a lane exactly if it initialises, reads or writes a cell of
/// it.
pub proof fn law_circuit_uses<P>(c: BCircuit<P>, storage: StorageId, lane: LaneId)
    ensures
        host_of(c).uses(storage, lane) <==> ((exists|i: int|
            0 <= i < c.pre_init@.len() && (#[trigger] c.pre_init@[i]).storage == storage
                && c.pre_init@[i].lane == lane) || (exists|i: int|
            0 <= i < c.stmts@.len() && match (#[trigger] c.stmts@[i]).kind {
                BIrStmt::StorageRead { storage: s, lane: l, .. } => s == storage && l == lane,
                BIrStmt::StorageWrite { storage: s, lane: l, .. } => s == storage && l == lane,
                _ => false,
            })),
        host_of(c).params == c.params,
        c.outputs@.len() <= u32::MAX ==> host_of(c).outputs == c.outputs@.len(),
{
    let h = host_of(c);
    if h.uses(storage, lane) {
        if exists|i: int|
            0 <= i < h.pre_init.len() && (#[trigger] h.pre_init[i]).storage == storage
                && h.pre_init[i].lane == lane {
            let i = choose|i: int|
                0 <= i < h.pre_init.len() && (#[trigger] h.pre_init[i]).storage == storage
                    && h.pre_init[i].lane == lane;
            assert(c.pre_init@[i].storage == storage);
        } else {
            let i = choose|i: int|
                0 <= i < h.stmts.len() && stmt_uses(#[trigger] h.stmts[i], storage, lane);
            assert(h.stmts[i] == c.stmts@[i].kind@);
        }
    }
    assert forall|i: int|
        0 <= i < c.pre_init@.len() && (#[trigger] c.pre_init@[i]).storage == storage
            && c.pre_init@[i].lane == lane implies h.uses(storage, lane) by {
        assert(h.pre_init[i] == c.pre_init@[i]@);
    }
    assert forall|i: int|
        0 <= i < c.stmts@.len() && match (#[trigger] c.stmts@[i]).kind {
            BIrStmt::StorageRead { storage: s, lane: l, .. } => s == storage && l == lane,
            BIrStmt::StorageWrite { storage: s, lane: l, .. } => s == storage && l == lane,
            _ => false,
        } implies h.uses(storage, lane) by {
        assert(h.stmts[i] == c.stmts@[i].kind@);
        assert(stmt_uses(h.stmts[i], storage, lane));
    }
}

// ---------------------------------------------------------------------------
// Tables
// ---------------------------------------------------------------------------

/// What is said of an anchor: that it has no wires, or ends behind the last
/// input, output or address, or is one of a lane that is not used.
pub proof fn law_anchor_fault(a: WireAnchor, host: Host)
    ensures
        match a {
            WireAnchor::Input { start, len } => anchor_error(a, host) == (if len == 0 {
                Some(RegionError::EmptyAnchor(a))
            } else if start + len > host.params && host.params < u32::MAX {
                Some(RegionError::InputOutOfRange { start, len, params: host.params })
            } else {
                None
            }),
            WireAnchor::Output { start, len } => anchor_error(a, host) == (if len == 0 {
                Some(RegionError::EmptyAnchor(a))
            } else if start + len > host.outputs && host.outputs < u32::MAX {
                Some(RegionError::OutputOutOfRange { start, len, outputs: host.outputs })
            } else {
                None
            }),
            WireAnchor::Storage { storage, lane, start, len } => anchor_error(a, host) == (if len
                == 0 {
                Some(RegionError::EmptyAnchor(a))
            } else if start + len > u64::MAX {
                Some(RegionError::StorageRangeOverflow { start, len })
            } else if !host.uses(storage, lane) {
                Some(RegionError::UnknownStorageSpace { storage, lane })
            } else {
                None
            }),
        },
{
}

/// A table fits a circuit exactly if every entry has regions, stands behind the
/// one before it, has an anchor of the circuit, and shares no wire with an
/// entry before it.
pub proof fn law_fitting_table(entries: Seq<RegionEntryView>, host: Host)
    ensures
        entries_error(entries, host, 0) is None <==> forall|i: int|
            0 <= i < entries.len() ==> {
                &&& (#[trigger] entries[i]).regions.len() > 0
                &&& i > 0 ==> entries[i - 1].anchor.less(entries[i].anchor)
                &&& anchor_error(entries[i].anchor, host) is None
                &&& forall|j: int|
                    0 <= j < i ==> !(#[trigger] entries[j]).anchor.meets(entries[i].anchor)
            },
{
    lemma_all_fit(entries, host, 0);
    assert forall|i: int| 0 <= i < entries.len() implies (#[trigger] entry_error(entries, host, i)
        is None <==> {
        &&& entries[i].regions.len() > 0
        &&& i > 0 ==> entries[i - 1].anchor.less(entries[i].anchor)
        &&& anchor_error(entries[i].anchor, host) is None
        &&& forall|j: int| 0 <= j < i ==> !(#[trigger] entries[j]).anchor.meets(entries[i].anchor)
    }) by {
        lemma_none_met(entries, i, 0);
    }
    if entries_error(entries, host, 0) is None {
        assert forall|i: int| 0 <= i < entries.len() implies {
            &&& (#[trigger] entries[i]).regions.len() > 0
            &&& i > 0 ==> entries[i - 1].anchor.less(entries[i].anchor)
            &&& anchor_error(entries[i].anchor, host) is None
            &&& forall|j: int|
                0 <= j < i ==> !(#[trigger] entries[j]).anchor.meets(entries[i].anchor)
        } by {
            assert(entry_error(entries, host, i) is None);
        }
    } else if forall|i: int|
        0 <= i < entries.len() ==> {
            &&& (#[trigger] entries[i]).regions.len() > 0
            &&& i > 0 ==> entries[i - 1].anchor.less(entries[i].anchor)
            &&& anchor_error(entries[i].anchor, host) is None
            &&& forall|j: int|
                0 <= j < i ==> !(#[trigger] entries[j]).anchor.meets(entries[i].anchor)
        } {
        assert forall|i: int| 0 <= i < entries.len() implies #[trigger] entry_error(
            entries,
            host,
            i,
        ) is None by {
            assert(entries[i].regions.len() > 0);
        }
    }
}

proof fn lemma_all_fit(entries: Seq<RegionEntryView>, host: Host, from: int)
    requires
        0 <= from <= entries.len(),
    ensures
        entries_error(entries, host, from) is None <==> forall|i: int|
            from <= i < entries.len() ==> #[trigger] entry_error(entries, host, i) is None,
    decreases entries.len() - from,
{
    if from < entries.len() {
        lemma_all_fit(entries, host, from + 1);
        assert(entry_error(entries, host, from) is None || entry_error(entries, host, from) is Some);
    }
}

proof fn lemma_none_met(entries: Seq<RegionEntryView>, i: int, from: int)
    requires
        0 <= from <= i < entries.len(),
    ensures
        overlap_error(entries, i, from) is None <==> forall|j: int|
            from <= j < i ==> !(#[trigger] entries[j]).anchor.meets(entries[i].anchor),
    decreases i - from,
{
    if from < i {
        lemma_none_met(entries, i, from + 1);
        assert(entries[from].anchor.meets(entries[i].anchor) || !entries[from].anchor.meets(
            entries[i].anchor,
        ));
    }
}

/// The first entry with which something is wrong is the one that is told of: no
/// regions come before its order, its order before its anchor, its anchor before
/// a wire that it shares with the first such entry `j`.
pub proof fn law_first_fault(entries: Seq<RegionEntryView>, host: Host, i: int, j: int)
    requires
        0 <= i < entries.len(),
        entries_error(entries.take(i), host, 0) is None,
    ensures
        entries[i].regions.len() == 0 ==> entries_error(entries, host, 0) == Some(
            RegionError::EmptyRegions(entries[i].anchor),
        ),
        entries[i].regions.len() > 0 && i > 0 && entries[i - 1].anchor == entries[i].anchor
            ==> entries_error(entries, host, 0) == Some(
            RegionError::OverlappingEntries { first: entries[i].anchor, second: entries[i].anchor },
        ),
        entries[i].regions.len() > 0 && i > 0 && entries[i].anchor.less(entries[i - 1].anchor)
            ==> entries_error(entries, host, 0) == Some(RegionError::Unsorted),
        entries[i].regions.len() > 0 && (i > 0 ==> entries[i - 1].anchor.less(entries[i].anchor))
            && anchor_error(entries[i].anchor, host) is Some ==> entries_error(entries, host, 0)
            == anchor_error(entries[i].anchor, host),
        entries[i].regions.len() > 0 && (i > 0 ==> entries[i - 1].anchor.less(entries[i].anchor))
            && anchor_error(entries[i].anchor, host) is None && 0 <= j < i && entries[j].anchor.meets(
            entries[i].anchor,
        ) && (forall|k: int| 0 <= k < j ==> !(#[trigger] entries[k]).anchor.meets(entries[i].anchor))
            ==> entries_error(entries, host, 0) == Some(
            RegionError::OverlappingEntries { first: entries[j].anchor, second: entries[i].anchor },
        ),
{
    if i > 0 {
        law_anchor_order(entries[i - 1].anchor, entries[i].anchor, entries[i].anchor);
    }
    lemma_fault_at(entries, host, 0, i);
    if 0 <= j < i && entries[j].anchor.meets(entries[i].anchor) && (forall|k: int|
        0 <= k < j ==> !(#[trigger] entries[k]).anchor.meets(entries[i].anchor)) {
        lemma_first_met(entries, i, 0, j);
    }
}

proof fn lemma_fault_at(entries: Seq<RegionEntryView>, host: Host, from: int, i: int)
    requires
        0 <= from <= i < entries.len(),
        entries_error(entries.take(i), host, from) is None,
    ensures
        entry_error(entries, host, i) is Some ==> entries_error(entries, host, from) == entry_error(
            entries,
            host,
            i,
        ),
    decreases i - from,
{
    if from < i {
        let t = entries.take(i);
        assert(t[from] == entries[from]);
        lemma_same_overlap(entries, t, from, 0);
        if from > 0 {
            assert(t[from - 1] == entries[from - 1]);
        }
        assert(entry_error(t, host, from) == entry_error(entries, host, from));
        lemma_fault_at(entries, host, from + 1, i);
    }
}

proof fn lemma_same_overlap(
    entries: Seq<RegionEntryView>,
    t: Seq<RegionEntryView>,
    i: int,
    from: int,
)
    requires
        0 <= from <= i < t.len() <= entries.len(),
        t == entries.take(t.len() as int),
    ensures
        overlap_error(t, i, from) == overlap_error(entries, i, from),
    decreases i - from,
{
    assert(t[i] == entries[i]);
    if from < i {
        assert(t[from] == entries[from]);
        lemma_same_overlap(entries, t, i, from + 1);
    }
}

proof fn lemma_first_met(entries: Seq<RegionEntryView>, i: int, from: int, j: int)
    requires
        0 <= from <= j < i < entries.len(),
        entries[j].anchor.meets(entries[i].anchor),
        forall|k: int| from <= k < j ==> !(#[trigger] entries[k]).anchor.meets(entries[i].anchor),
    ensures
        overlap_error(entries, i, from) == Some(
            RegionError::OverlappingEntries { first: entries[j].anchor, second: entries[i].anchor },
        ),
    decreases j - from,
{
    if from < j {
        assert(!entries[from].anchor.meets(entries[i].anchor));
        lemma_first_met(entries, i, from + 1, j);
    }
}

/// The regions of a wire are those of the first entry that has it; a wire that
/// no entry has is in none.
pub proof fn law_regions_of_wire(entries: Seq<RegionEntryView>, w: BoundaryWire, i: int)
    requires
        -1 <= i < entries.len(),
        i >= 0 ==> has_wire(entries[i].anchor, w),
        forall|j: int|
            0 <= j < (if i < 0 {
                entries.len() as int
            } else {
                i
            }) ==> !has_wire((#[trigger] entries[j]).anchor, w),
    ensures
        match w {
            BoundaryWire::Input(bit) => regions_of(
                entries,
                WireAnchor::Input { start: 0, len: 0 },
                bit as u64,
            ),
            BoundaryWire::Output(bit) => regions_of(
                entries,
                WireAnchor::Output { start: 0, len: 0 },
                bit as u64,
            ),
            BoundaryWire::Cell { storage, lane, addr } => regions_of(
                entries,
                WireAnchor::Storage { storage, lane, start: 0, len: 0 },
                addr,
            ),
        } == (if i < 0 {
            None
        } else {
            Some(entries[i].regions)
        }),
    decreases entries.len(),
{
    if entries.len() > 0 && i != 0 {
        let rest = entries.drop_first();
        assert(!has_wire(entries[0].anchor, w));
        assert forall|j: int|
            0 <= j < (if i < 0 {
                rest.len() as int
            } else {
                i - 1
            }) implies !has_wire((#[trigger] rest[j]).anchor, w) by {
            assert(rest[j] == entries[j + 1]);
        }
        law_regions_of_wire(
            rest,
            w,
            if i < 0 {
                -1
            } else {
                i - 1
            },
        );
    }
}

/// A selector asks for every region of one set and for none of the other.
pub proof fn law_selector(sel: RegionSelector, regions: Seq<RegionId>)
    ensures
        sel@.selects(regions) <==> forall|q: RegionId|
            (sel.all_of@.contains(q) ==> #[trigger] regions.contains(q)) && (sel.none_of@.contains(q)
                ==> !regions.contains(q)),
{
    if sel@.selects(regions) {
        assert forall|q: RegionId|
            (sel.all_of@.contains(q) ==> #[trigger] regions.contains(q)) && (sel.none_of@.contains(q)
                ==> !regions.contains(q)) by {
            if sel.all_of@.contains(q) {
                let i = choose|i: int| 0 <= i < sel.all_of@.len() && sel.all_of@[i] == q;
                assert(regions.contains(sel@.all_of[i]));
            }
            if sel.none_of@.contains(q) {
                let i = choose|i: int| 0 <= i < sel.none_of@.len() && sel.none_of@[i] == q;
                assert(!regions.contains(sel@.none_of[i]));
            }
        }
    } else if forall|q: RegionId|
        (sel.all_of@.contains(q) ==> #[trigger] regions.contains(q)) && (sel.none_of@.contains(q)
            ==> !regions.contains(q)) {
        assert forall|i: int| 0 <= i < sel@.all_of.len() implies regions.contains(
            #[trigger] sel@.all_of[i],
        ) by {
            assert(sel.all_of@.contains(sel@.all_of[i]));
        }
        assert forall|i: int| 0 <= i < sel@.none_of.len() implies !regions.contains(
            #[trigger] sel@.none_of[i],
        ) by {
            assert(sel.none_of@.contains(sel@.none_of[i]));
            assert(regions.contains(sel@.none_of[i]) || !regions.contains(sel@.none_of[i]));
        }
    }
}

/// Selected wires come entry by entry: those of a selected entry behind those
/// of the entries before it, and none of another entry.
pub proof fn law_selection_in_order(
    entries: Seq<RegionEntryView>,
    e: RegionEntryView,
    sel: SelectorView,
)
    ensures
        selected_wires(Seq::empty(), sel).len() == 0,
        sel.selects(e.regions) ==> selected_wires(entries.push(e), sel) == selected_wires(
            entries,
            sel,
        ) + anchor_wires(e.anchor),
        !sel.selects(e.regions) ==> selected_wires(entries.push(e), sel) == selected_wires(
            entries,
            sel,
        ),
{
    assert(entries.push(e).drop_last() =~= entries);
}

// ---------------------------------------------------------------------------
// Gadgets
// ---------------------------------------------------------------------------

/// The width of the data is that of the first port of data, if there is one.
pub proof fn law_data_width(ports: Seq<PortView>, i: int)
    requires
        -1 <= i < ports.len(),
        i >= 0 ==> ports[i].kind == PortKind::Data,
        forall|j: int|
            0 <= j < (if i < 0 {
                ports.len() as int
            } else {
                i
            }) ==> (#[trigger] ports[j]).kind != PortKind::Data,
    ensures
        first_data_width(ports) == (if i < 0 {
            None
        } else {
            Some(ports[i].width)
        }),
    decreases ports.len(),
{
    if ports.len() > 0 && i != 0 {
        let rest = ports.drop_first();
        assert(ports[0].kind != PortKind::Data);
        assert forall|j: int|
            0 <= j < (if i < 0 {
                rest.len() as int
            } else {
                i - 1
            }) implies (#[trigger] rest[j]).kind != PortKind::Data by {
            assert(rest[j] == ports[j + 1]);
        }
        law_data_width(
            rest,
            if i < 0 {
                -1
            } else {
                i - 1
            },
        );
    }
}

/// The first port starts at zero, and each port where the one before it ends,
/// whatever their kinds.
pub proof fn law_ports_adjacent(ports: Seq<PortView>, i: int)
    requires
        0 <= i < ports.len(),
    ensures
        width_before(ports, 0) == 0,
        width_before(ports, i + 1) - width_before(ports, i) == ports[i].width,
{
}

/// The ports for outside material are listed in order, and no others.
pub proof fn law_aux_ports(ports: Seq<PortView>, p: PortView)
    ensures
        aux_ports(Seq::empty()).len() == 0,
        p.kind == PortKind::Aux ==> aux_ports(ports.push(p)) == aux_ports(ports).push(
            (p.name, p.width),
        ),
        p.kind != PortKind::Aux ==> aux_ports(ports.push(p)) == aux_ports(ports),
{
    assert(ports.push(p).drop_last() =~= ports);
}

/// A gadget is found by its name; of several with one name the first is found.
pub proof fn law_gadget_found(gadgets: Seq<GadgetSpec>, name: Seq<char>, i: int)
    ensures
        0 <= i < gadgets.len() && gadgets[i].name@ == name && (forall|j: int|
            0 <= j < i ==> (#[trigger] gadgets[j]).name@ != name) ==> gadget_place(gadgets, name)
            == i,
        (forall|j: int| 0 <= j < gadgets.len() ==> (#[trigger] gadgets[j]).name@ != name)
            ==> gadget_place(gadgets, name) == gadgets.len(),
    decreases gadgets.len(),
{
    if gadgets.len() > 0 && gadgets[0].name@ != name {
        let rest = gadgets.drop_first();
        assert forall|j: int| 0 <= j < rest.len() implies #[trigger] rest[j] == gadgets[j + 1] by {}
        law_gadget_found(rest, name, i - 1);
        if 0 < i < gadgets.len() {
            assert(rest[i - 1] == gadgets[i]);
        }
    }
}

/// The bits that a source has: as many as it names or holds; a random source
/// has as many as are asked of it.
pub proof fn law_source_bits(a: AuxSource)
    ensures
        match a {
            AuxSource::InputRange { start: _, len } => a.bits() == len,
            AuxSource::Const(bits) => a.bits() == bits@.len(),
            AuxSource::Rng(_) => a.bits() == 0,
        },
{
}

} // verus!
