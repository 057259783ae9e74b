//! Regions of typed programs: bit ranges within parameters, outputs and
//! storage values.

use std::collections::BTreeMap;

use vstd::prelude::*;

use crate::circuit::VCircuit;
use crate::common::{IrTypeView, Node, StorageId};
use crate::ir::{
    node_kinds, output_type, stmt_output_type, IRBlockId, IRBlocks, IRBlocksView, IRStmt, IRType,
    IRTypeId, IRTypes, IRVarId, PrimType, StmtView,
};
use crate::region::{RegionId, RegionNames, RegionSelector, RegionSet, SelectorView};

pub use crate::common::constant_bit;

verus! {

// ---------------------------------------------------------------------------
// Bit widths
// ---------------------------------------------------------------------------

/// What the layout of a type in bits is.
pub enum Layout {
    /// The type is not in the table, holds itself, or is too wide to count.
    Undefined,
    /// The type has no bits to speak of.
    NoBits,
    /// The number of bits.
    Bits(nat),
}

/// The layout of a primitive type.
pub open spec fn prim_layout(t: PrimType) -> Layout {
    match t {
        PrimType::Bit => Layout::Bits(1),
        PrimType::_8 => Layout::Bits(8),
        PrimType::AES8 => Layout::Bits(8),
        PrimType::_16 => Layout::Bits(16),
        PrimType::_32 => Layout::Bits(32),
        PrimType::_64 => Layout::Bits(64),
        PrimType::Galois64 => Layout::Bits(64),
        PrimType::_128 => Layout::Bits(128),
        PrimType::_256 => Layout::Bits(256),
        PrimType::Z3 => Layout::NoBits,
    }
}

/// The layout of a type that nests at most `depth` types. The width of a
/// repeated type is at most the largest number; labels have no bits.
pub open spec fn layout_within(table: Seq<IrTypeView>, id: IRTypeId, depth: nat) -> Layout
    decreases depth, 0nat,
{
    if depth == 0 || id.0 >= table.len() {
        Layout::Undefined
    } else {
        match table[id.0 as int] {
            IrTypeView::Primitive(t) => prim_layout(t),
            IrTypeView::Vec(n, elem) => match layout_within(table, elem, (depth - 1) as nat) {
                Layout::Bits(w) => Layout::Bits(
                    if n * w > usize::MAX {
                        usize::MAX as nat
                    } else {
                        (n * w) as nat
                    },
                ),
                other => other,
            },
            IrTypeView::Tuple(ids) => tuple_layout(table, ids, ids.len(), (depth - 1) as nat),
            IrTypeView::Block { .. } => Layout::Bits(0),
            IrTypeView::Func { .. } => Layout::Bits(0),
        }
    }
}

/// The layout of the first `k` types of a tuple, one behind the other.
pub open spec fn tuple_layout(
    table: Seq<IrTypeView>,
    ids: Seq<IRTypeId>,
    k: nat,
    depth: nat,
) -> Layout
    decreases depth, k,
{
    if k == 0 {
        Layout::Bits(0)
    } else {
        match tuple_layout(table, ids, (k - 1) as nat, depth) {
            Layout::Bits(before) => match layout_within(table, ids[k - 1], depth) {
                Layout::Bits(w) => if before + w > usize::MAX {
                    Layout::Undefined
                } else {
                    Layout::Bits(before + w)
                },
                other => other,
            },
            other => other,
        }
    }
}

/// The layout of a type. Types that do not hold themselves nest no deeper than
/// there are types.
pub open spec fn layout(table: Seq<IrTypeView>, id: IRTypeId) -> Layout {
    layout_within(table, id, table.len())
}

/// Whether a type has a layout.
pub open spec fn has_layout(table: Seq<IrTypeView>, id: IRTypeId) -> bool {
    !(layout(table, id) is Undefined)
}

/// The number of bits of a type, if it has bits.
pub open spec fn bit_width(table: Seq<IrTypeView>, id: IRTypeId) -> Option<usize> {
    match layout(table, id) {
        Layout::Bits(w) => Some(w as usize),
        _ => None,
    }
}

/// The number of bits of a type, if it has bits: none for the field of three
/// elements, and zero for the labels of blocks and functions.
pub fn typed_bit_width(ty_id: IRTypeId, types: &IRTypes) -> (r: Option<usize>)
    requires
        has_layout(types@, ty_id),
    ensures
        r == bit_width(types@, ty_id),
{
    width_within(ty_id, types, types.0.len())
}

fn width_within(id: IRTypeId, types: &IRTypes, depth: usize) -> (r: Option<usize>)
    requires
        !(layout_within(types@, id, depth as nat) is Undefined),
    ensures
        match r {
            Some(w) => layout_within(types@, id, depth as nat) == Layout::Bits(w as nat),
            None => layout_within(types@, id, depth as nat) is NoBits,
        },
    decreases depth, 0usize,
{
    let ghost table = types@;
    assert(table[id.0 as int] == types.0@[id.0 as int]@);
    match &types.0[id.0 as usize] {
        IRType::Primitive(t) => match t {
            PrimType::Bit => Some(1),
            PrimType::_8 | PrimType::AES8 => Some(8),
            PrimType::_16 => Some(16),
            PrimType::_32 => Some(32),
            PrimType::_64 | PrimType::Galois64 => Some(64),
            PrimType::_128 => Some(128),
            PrimType::_256 => Some(256),
            PrimType::Z3 => None,
        },
        IRType::Vec(n, elem) => match width_within(*elem, types, depth - 1) {
            Some(w) => Some(saturating_product(*n, w)),
            None => None,
        },
        IRType::Tuple(ids) => tuple_width(ids, ids.len(), types, depth - 1),
        IRType::Block { .. } => Some(0),
        IRType::Func { .. } => Some(0),
    }
}

/// The product, or the largest number where the product is greater.
fn saturating_product(a: usize, b: usize) -> (r: usize)
    ensures
        r == (if a * b > usize::MAX {
            usize::MAX as int
        } else {
            a * b
        }),
{
    match a.checked_mul(b) {
        Some(p) => p,
        None => usize::MAX,
    }
}

fn tuple_width(ids: &Vec<IRTypeId>, k: usize, types: &IRTypes, depth: usize) -> (r: Option<usize>)
    requires
        k <= ids.len(),
        !(tuple_layout(types@, ids@, k as nat, depth as nat) is Undefined),
    ensures
        match r {
            Some(w) => tuple_layout(types@, ids@, k as nat, depth as nat) == Layout::Bits(w as nat),
            None => tuple_layout(types@, ids@, k as nat, depth as nat) is NoBits,
        },
    decreases depth, k,
{
    if k == 0 {
        return Some(0);
    }
    match tuple_width(ids, k - 1, types, depth) {
        Some(before) => match width_within(ids[k - 1], types, depth) {
            Some(w) => Some(before + w),
            None => None,
        },
        None => None,
    }
}

// ---------------------------------------------------------------------------
// Anchors
// ---------------------------------------------------------------------------

/// A range of bits of one parameter, output or result, or a range of cells of
/// one typed storage space.
#[derive(Clone, Copy, PartialEq, Eq, PartialOrd, Ord, Hash, Debug, Structural)]
#[allow(inconsistent_fields)]
pub enum TypedAnchor {
    /// Bits of a parameter of the entry.
    Input { param: u32, start: u16, len: u16 },
    /// Bits of a parameter of a block.
    BlockInput { block: IRBlockId, param: u32, start: u16, len: u16 },
    /// Bits of a parameter of a function.
    FuncInput { func: u32, param: u32, start: u16, len: u16 },
    /// Bits of an output.
    Output { out: u32, start: u16, len: u16 },
    /// Bits of a result of a function.
    FuncOutput { func: u32, result: u32, start: u16, len: u16 },
    /// All bits of the cells of a storage space.
    Storage { storage: StorageId, ty: IRTypeId, addr_start: u64, addr_len: u64 },
}

impl TypedAnchor {
    /// What the range is a range of: two anchors can have a position in common
    /// only if this is the same for both.
    pub open spec fn space(self) -> (u8, u64, u64) {
        match self {
            TypedAnchor::Input { param, .. } => (0, param as u64, 0),
            TypedAnchor::BlockInput { block, param, .. } => (1, block.0 as u64, param as u64),
            TypedAnchor::FuncInput { func, param, .. } => (2, func as u64, param as u64),
            TypedAnchor::Output { out, .. } => (3, out as u64, 0),
            TypedAnchor::FuncOutput { func, result, .. } => (4, func as u64, result as u64),
            TypedAnchor::Storage { storage, ty, .. } => (5, storage.0 as u64, ty.0 as u64),
        }
    }

    /// The first position.
    pub open spec fn first(self) -> u64 {
        match self {
            TypedAnchor::Input { start, .. } => start as u64,
            TypedAnchor::BlockInput { start, .. } => start as u64,
            TypedAnchor::FuncInput { start, .. } => start as u64,
            TypedAnchor::Output { start, .. } => start as u64,
            TypedAnchor::FuncOutput { start, .. } => start as u64,
            TypedAnchor::Storage { addr_start, .. } => addr_start,
        }
    }

    /// The number of positions.
    pub open spec fn count(self) -> u64 {
        match self {
            TypedAnchor::Input { len, .. } => len as u64,
            TypedAnchor::BlockInput { len, .. } => len as u64,
            TypedAnchor::FuncInput { len, .. } => len as u64,
            TypedAnchor::Output { len, .. } => len as u64,
            TypedAnchor::FuncOutput { len, .. } => len as u64,
            TypedAnchor::Storage { addr_len, .. } => addr_len,
        }
    }

    /// Whether the number of the position behind the last fits.
    pub open spec fn fits(self) -> bool {
        match self {
            TypedAnchor::Storage { .. } => self.first() + self.count() <= u64::MAX,
            _ => self.first() + self.count() <= u16::MAX,
        }
    }

    /// Whether two anchors have a position in common.
    pub open spec fn meets(self, other: TypedAnchor) -> bool {
        &&& self.space() == other.space()
        &&& other.first() < self.first() + self.count()
        &&& self.first() < other.first() + other.count()
    }

    /// The order of anchors: by space, then by range.
    pub open spec fn less(self, other: TypedAnchor) -> bool {
        let (k1, a1, b1) = self.space();
        let (k2, a2, b2) = other.space();
        k1 < k2 || (k1 == k2 && (a1 < a2 || (a1 == a2 && (b1 < b2 || (b1 == b2 && (self.first()
            < other.first() || (self.first() == other.first() && self.count()
            < other.count())))))))
    }

    /// What the range is a range of.
    fn space_key(&self) -> (r: (u8, u64, u64))
        ensures
            r == self.space(),
    {
        match self {
            TypedAnchor::Input { param, .. } => (0, *param as u64, 0),
            TypedAnchor::BlockInput { block, param, .. } => (1, block.0 as u64, *param as u64),
            TypedAnchor::FuncInput { func, param, .. } => (2, *func as u64, *param as u64),
            TypedAnchor::Output { out, .. } => (3, *out as u64, 0),
            TypedAnchor::FuncOutput { func, result, .. } => (4, *func as u64, *result as u64),
            TypedAnchor::Storage { storage, ty, .. } => (5, storage.0 as u64, ty.0 as u64),
        }
    }

    /// The first position and the number of positions.
    fn range(&self) -> (r: (u64, u64))
        ensures
            r == (self.first(), self.count()),
    {
        match self {
            TypedAnchor::Input { start, len, .. } => (*start as u64, *len as u64),
            TypedAnchor::BlockInput { start, len, .. } => (*start as u64, *len as u64),
            TypedAnchor::FuncInput { start, len, .. } => (*start as u64, *len as u64),
            TypedAnchor::Output { start, len, .. } => (*start as u64, *len as u64),
            TypedAnchor::FuncOutput { start, len, .. } => (*start as u64, *len as u64),
            TypedAnchor::Storage { addr_start, addr_len, .. } => (*addr_start, *addr_len),
        }
    }

    /// Whether this anchor stands before another.
    fn before(&self, other: &TypedAnchor) -> (b: bool)
        ensures
            b == self.less(*other),
    {
        let (k1, a1, b1) = self.space_key();
        let (k2, a2, b2) = other.space_key();
        let (s1, n1) = self.range();
        let (s2, n2) = other.range();
        k1 < k2 || (k1 == k2 && (a1 < a2 || (a1 == a2 && (b1 < b2 || (b1 == b2 && (s1 < s2 || (s1
            == s2 && n1 < n2)))))))
    }

    /// Whether two anchors are ranges of the same.
    fn shares_space(&self, other: &TypedAnchor) -> (b: bool)
        ensures
            b == (self.space() == other.space()),
    {
        let (k1, a1, b1) = self.space_key();
        let (k2, a2, b2) = other.space_key();
        k1 == k2 && a1 == a2 && b1 == b2
    }
}

/// A range with the regions that its bits belong to.
#[derive(PartialEq, Eq, PartialOrd, Ord, Hash, Debug)]
pub struct TypedRegionEntry {
    pub anchor: TypedAnchor,
    pub regions: RegionSet,
}

/// What a [`TypedRegionEntry`] denotes.
#[verifier::ext_equal]
pub struct TypedEntryView {
    pub anchor: TypedAnchor,
    pub regions: Seq<RegionId>,
}

impl View for TypedRegionEntry {
    type V = TypedEntryView;

    open spec fn view(&self) -> TypedEntryView {
        TypedEntryView { anchor: self.anchor, regions: self.regions@ }
    }
}

/// The views of a list of entries.
pub open spec fn typed_entry_views(s: Seq<TypedRegionEntry>) -> Seq<TypedEntryView> {
    s.map_values(|e: TypedRegionEntry| e@)
}

/// A bit at the boundary of a typed program.
#[derive(Clone, Copy, PartialEq, Eq, PartialOrd, Ord, Hash, Debug, Structural)]
#[allow(inconsistent_fields)]
pub enum TypedBoundaryWire {
    Input { param: u32, bit: u16 },
    BlockInput { block: IRBlockId, param: u32, bit: u16 },
    FuncInput { func: u32, param: u32, bit: u16 },
    Output { out: u32, bit: u16 },
    FuncOutput { func: u32, result: u32, bit: u16 },
    /// One bit of one cell.
    Cell { storage: StorageId, ty: IRTypeId, addr: u64, plane: u16 },
}

/// What is wrong with a table.
#[derive(Clone, Copy, PartialEq, Eq, Debug)]
#[allow(inconsistent_fields)]
pub enum TypedRegionError {
    /// An anchor without positions.
    EmptyAnchor(TypedAnchor),
    /// An entry without regions.
    EmptyRegions(TypedAnchor),
    /// Entries out of order.
    Unsorted,
    /// Two entries with a position in common.
    OverlappingEntries { first: TypedAnchor, second: TypedAnchor },
    /// What the range is a range of does not exist, or has no bits.
    UnknownCarrier { anchor: TypedAnchor },
    /// The range goes beyond what it is a range of.
    RangeOutOfRange { anchor: TypedAnchor, start: u16, len: u16, width: usize },
    /// A range of cells beyond the last address.
    StorageRangeOverflow { anchor: TypedAnchor },
    /// A storage space that the program does not use.
    UnknownStorageSpace { storage: StorageId, ty: IRTypeId },
    /// An anchor that this kind of program does not have.
    UnsupportedAnchor { anchor: TypedAnchor, host: &'static str },
}

/// The regions of the bits of one typed program.
#[derive(PartialEq, Eq, Debug)]
pub struct TypedRegionTable {
    pub entries: Vec<TypedRegionEntry>,
    pub names: RegionNames,
}

/// What a [`TypedRegionTable`] denotes.
#[verifier::ext_equal]
pub struct TypedTableView {
    pub entries: Seq<TypedEntryView>,
    pub names: Seq<(RegionId, Seq<char>)>,
}

impl View for TypedRegionTable {
    type V = TypedTableView;

    open spec fn view(&self) -> TypedTableView {
        TypedTableView { entries: typed_entry_views(self.entries@), names: self.names@ }
    }
}

// ---------------------------------------------------------------------------
// Structure
// ---------------------------------------------------------------------------

/// What is wrong with entry `i`, by itself and behind the one before it.
pub open spec fn typed_entry_error(entries: Seq<TypedEntryView>, i: int) -> Option<
    TypedRegionError,
> {
    let a = entries[i].anchor;
    if entries[i].regions.len() == 0 {
        Some(TypedRegionError::EmptyRegions(a))
    } else if i > 0 && entries[i - 1].anchor == a {
        Some(TypedRegionError::OverlappingEntries { first: a, second: a })
    } else if i > 0 && !entries[i - 1].anchor.less(a) {
        Some(TypedRegionError::Unsorted)
    } else if a.count() == 0 {
        Some(TypedRegionError::EmptyAnchor(a))
    } else if a.first() + a.count() > u64::MAX {
        Some(TypedRegionError::StorageRangeOverflow { anchor: a })
    } else if i > 0 && entries[i - 1].anchor.meets(a) {
        Some(TypedRegionError::OverlappingEntries { first: entries[i - 1].anchor, second: a })
    } else {
        None
    }
}

/// What is wrong with the first entry, from `from` on, with which something is.
pub open spec fn structure_error(entries: Seq<TypedEntryView>, from: int) -> Option<
    TypedRegionError,
>
    decreases entries.len() - from,
{
    if from >= entries.len() {
        None
    } else {
        match typed_entry_error(entries, from) {
            Some(e) => Some(e),
            None => structure_error(entries, from + 1),
        }
    }
}

proof fn lemma_structure_ok(entries: Seq<TypedEntryView>, from: int, i: int)
    requires
        structure_error(entries, from) is None,
        0 <= from <= i < entries.len(),
    ensures
        typed_entry_error(entries, i) is None,
    decreases i - from,
{
    if from < i {
        lemma_structure_ok(entries, from + 1, i);
    }
}

proof fn lemma_structure_apart(entries: Seq<TypedEntryView>, i: int, j: int)
    requires
        structure_error(entries, 0) is None,
        0 <= i < j < entries.len(),
    ensures
        entries[i].anchor.less(entries[j].anchor),
        entries[i].anchor.space() == entries[j].anchor.space() ==> entries[i].anchor.first()
            + entries[i].anchor.count() <= entries[j].anchor.first(),
    decreases j - i,
{
    lemma_structure_ok(entries, 0, i);
    lemma_structure_ok(entries, 0, j);
    if i < j - 1 {
        lemma_structure_apart(entries, i, j - 1);
        lemma_structure_ok(entries, 0, j - 1);
    }
}

/// In a table that is in order every entry has regions and positions, and no
/// two entries have a position in common.
pub proof fn law_structure(entries: Seq<TypedEntryView>, i: int, j: int)
    requires
        structure_error(entries, 0) is None,
        0 <= i < entries.len(),
        0 <= j < entries.len(),
    ensures
        entries[i].regions.len() > 0,
        entries[i].anchor.count() > 0,
        i != j ==> !entries[i].anchor.meets(entries[j].anchor),
{
    lemma_structure_ok(entries, 0, i);
    if i < j {
        lemma_structure_apart(entries, i, j);
    } else if j < i {
        lemma_structure_apart(entries, j, i);
    }
}

impl TypedRegionTable {
    /// A table without entries.
    pub fn new() -> (r: Self)
        ensures
            r@ == (TypedTableView { entries: Seq::empty(), names: Seq::empty() }),
    {
        let r = TypedRegionTable { entries: Vec::new(), names: RegionNames::new() };
        assert(r@.entries =~= Seq::empty());
        r
    }

    /// Check the entries by themselves: ascending, not empty, and without a
    /// position in common.
    pub fn validate_structure(&self) -> (r: Result<(), TypedRegionError>)
        ensures
            match r {
                Ok(_) => structure_error(self@.entries, 0) is None,
                Err(e) => structure_error(self@.entries, 0) == Some(e),
            },
    {
        let ghost es = self@.entries;
        let mut i: usize = 0;
        while i < self.entries.len()
            invariant
                i <= self.entries.len(),
                es == typed_entry_views(self.entries@),
                structure_error(es, 0) == structure_error(es, i as int),
            decreases self.entries.len() - i,
        {
            let anchor: TypedAnchor = self.entries[i].anchor;
            assert(es[i as int] == self.entries@[i as int]@);
            if self.entries[i].regions.is_empty() {
                return Err(TypedRegionError::EmptyRegions(anchor));
            }
            if i > 0 {
                let prev: TypedAnchor = self.entries[i - 1].anchor;
                assert(es[i - 1] == self.entries@[i - 1]@);
                if prev == anchor {
                    return Err(
                        TypedRegionError::OverlappingEntries { first: prev, second: anchor },
                    );
                }
                if !prev.before(&anchor) {
                    return Err(TypedRegionError::Unsorted);
                }
            }
            let (start, len) = anchor.range();
            if len == 0 {
                return Err(TypedRegionError::EmptyAnchor(anchor));
            }
            if start.checked_add(len).is_none() {
                return Err(TypedRegionError::StorageRangeOverflow { anchor });
            }
            if i > 0 {
                let first: TypedAnchor = self.entries[i - 1].anchor;
                let (s, n) = first.range();
                if first.shares_space(&anchor) && start - s < n {
                    return Err(TypedRegionError::OverlappingEntries { first, second: anchor });
                }
            }
            i += 1;
        }
        Ok(())
    }
}

// ---------------------------------------------------------------------------
// Selection
// ---------------------------------------------------------------------------

/// The bits of an anchor, in order. Those of a storage space come plane by
/// plane; without a number of planes there are none.
pub open spec fn typed_wires(a: TypedAnchor, planes: Option<usize>) -> Seq<TypedBoundaryWire> {
    match a {
        TypedAnchor::Input { param, start, len } => Seq::new(
            len as nat,
            |i: int| TypedBoundaryWire::Input { param, bit: (start + i) as u16 },
        ),
        TypedAnchor::BlockInput { block, param, start, len } => Seq::new(
            len as nat,
            |i: int| TypedBoundaryWire::BlockInput { block, param, bit: (start + i) as u16 },
        ),
        TypedAnchor::FuncInput { func, param, start, len } => Seq::new(
            len as nat,
            |i: int| TypedBoundaryWire::FuncInput { func, param, bit: (start + i) as u16 },
        ),
        TypedAnchor::Output { out, start, len } => Seq::new(
            len as nat,
            |i: int| TypedBoundaryWire::Output { out, bit: (start + i) as u16 },
        ),
        TypedAnchor::FuncOutput { func, result, start, len } => Seq::new(
            len as nat,
            |i: int| TypedBoundaryWire::FuncOutput { func, result, bit: (start + i) as u16 },
        ),
        TypedAnchor::Storage { storage, ty, addr_start, addr_len } => match planes {
            Some(n) => cell_wires(storage, ty, addr_start, addr_len, n as nat),
            None => Seq::empty(),
        },
    }
}

/// The bits of one plane of a range of cells.
pub open spec fn plane_wires(
    storage: StorageId,
    ty: IRTypeId,
    start: u64,
    len: u64,
    plane: usize,
) -> Seq<TypedBoundaryWire> {
    Seq::new(
        len as nat,
        |i: int|
            TypedBoundaryWire::Cell { storage, ty, addr: (start + i) as u64, plane: plane as u16 },
    )
}

/// The bits of the first `planes` planes of a range of cells.
pub open spec fn cell_wires(
    storage: StorageId,
    ty: IRTypeId,
    start: u64,
    len: u64,
    planes: nat,
) -> Seq<TypedBoundaryWire>
    decreases planes,
{
    if planes == 0 {
        Seq::empty()
    } else {
        cell_wires(storage, ty, start, len, (planes - 1) as nat) + plane_wires(
            storage,
            ty,
            start,
            len,
            (planes - 1) as usize,
        )
    }
}

/// The bits whose regions a selector selects, given a number of planes for
/// each entry.
pub open spec fn typed_selected(
    entries: Seq<TypedEntryView>,
    sel: SelectorView,
    planes: Seq<Option<usize>>,
) -> Seq<TypedBoundaryWire>
    decreases entries.len(),
{
    if entries.len() == 0 {
        Seq::empty()
    } else {
        let rest = typed_selected(entries.drop_last(), sel, planes);
        if sel.selects(entries.last().regions) {
            rest + typed_wires(entries.last().anchor, planes[entries.len() - 1])
        } else {
            rest
        }
    }
}

/// Whether each selected storage entry has a number of planes that `planes_of`
/// gives for its type.
pub open spec fn planes_given<F: Fn(IRTypeId) -> Option<usize>>(
    planes_of: F,
    entries: Seq<TypedEntryView>,
    sel: SelectorView,
    planes: Seq<Option<usize>>,
) -> bool {
    &&& planes.len() == entries.len()
    &&& forall|i: int|
        0 <= i < entries.len() && sel.selects((#[trigger] entries[i]).regions) ==> (
        entries[i].anchor matches TypedAnchor::Storage { ty, .. } ==> call_ensures(
            planes_of,
            (ty,),
            planes[i],
        ))
}

/// Append the bits of an anchor other than one of storage.
fn push_bits(a: &TypedAnchor, out: &mut Vec<TypedBoundaryWire>)
    requires
        a.fits(),
        !(a is Storage),
    ensures
        final(out)@ == old(out)@ + typed_wires(*a, None),
{
    let ghost before = out@;
    let ghost all = typed_wires(*a, None);
    let (_, n) = a.range();
    let mut i: u64 = 0;
    assert(before + all.take(0) =~= before);
    while i < n
        invariant
            i <= n,
            n == a.count(),
            a.fits(),
            !(a is Storage),
            all == typed_wires(*a, None),
            out@ == before + all.take(i as int),
        decreases n - i,
    {
        let w: TypedBoundaryWire = match a {
            TypedAnchor::Input { param, start, .. } => TypedBoundaryWire::Input {
                param: *param,
                bit: *start + i as u16,
            },
            TypedAnchor::BlockInput { block, param, start, .. } => TypedBoundaryWire::BlockInput {
                block: *block,
                param: *param,
                bit: *start + i as u16,
            },
            TypedAnchor::FuncInput { func, param, start, .. } => TypedBoundaryWire::FuncInput {
                func: *func,
                param: *param,
                bit: *start + i as u16,
            },
            TypedAnchor::Output { out: o, start, .. } => TypedBoundaryWire::Output {
                out: *o,
                bit: *start + i as u16,
            },
            TypedAnchor::FuncOutput { func, result, start, .. } => TypedBoundaryWire::FuncOutput {
                func: *func,
                result: *result,
                bit: *start + i as u16,
            },
            TypedAnchor::Storage { .. } => {
                return ;
            },
        };
        assert(all.take(i + 1) =~= all.take(i as int).push(w));
        out.push(w);
        assert(out@ =~= before + all.take(i + 1));
        i += 1;
    }
    assert(all.take(i as int) =~= all);
}

/// Append the bits of the first `planes` planes of a range of cells.
fn push_cells(
    storage: StorageId,
    ty: IRTypeId,
    start: u64,
    len: u64,
    planes: usize,
    out: &mut Vec<TypedBoundaryWire>,
)
    requires
        start + len <= u64::MAX,
    ensures
        final(out)@ == old(out)@ + cell_wires(storage, ty, start, len, planes as nat),
{
    let ghost before = out@;
    let mut p: usize = 0;
    assert(before + cell_wires(storage, ty, start, len, 0) =~= before);
    while p < planes
        invariant
            p <= planes,
            start + len <= u64::MAX,
            out@ == before + cell_wires(storage, ty, start, len, p as nat),
        decreases planes - p,
    {
        let ghost sofar = out@;
        let ghost all = plane_wires(storage, ty, start, len, p);
        let mut i: u64 = 0;
        assert(sofar + all.take(0) =~= sofar);
        while i < len
            invariant
                i <= len,
                start + len <= u64::MAX,
                all == plane_wires(storage, ty, start, len, p),
                out@ == sofar + all.take(i as int),
            decreases len - i,
        {
            let w: TypedBoundaryWire = TypedBoundaryWire::Cell {
                storage,
                ty,
                addr: start + i,
                plane: p as u16,
            };
            assert(all.take(i + 1) =~= all.take(i as int).push(w));
            out.push(w);
            assert(out@ =~= sofar + all.take(i + 1));
            i += 1;
        }
        assert(all.take(i as int) =~= all);
        p += 1;
        assert(out@ =~= before + cell_wires(storage, ty, start, len, p as nat));
    }
}

proof fn lemma_selected_planes(
    entries: Seq<TypedEntryView>,
    sel: SelectorView,
    p: Seq<Option<usize>>,
    q: Seq<Option<usize>>,
)
    requires
        entries.len() <= p.len(),
        entries.len() <= q.len(),
        forall|i: int| 0 <= i < entries.len() ==> p[i] == q[i],
    ensures
        typed_selected(entries, sel, p) == typed_selected(entries, sel, q),
    decreases entries.len(),
{
    if entries.len() > 0 {
        lemma_selected_planes(entries.drop_last(), sel, p, q);
    }
}

impl TypedRegionTable {
    /// The bits whose regions a selector selects. `planes_of` gives the number
    /// of bits of a storage cell by its type.
    pub fn select<F: Fn(IRTypeId) -> Option<usize>>(
        &self,
        sel: &RegionSelector,
        planes_of: F,
    ) -> (r: Vec<TypedBoundaryWire>)
        requires
            forall|i: int|
                0 <= i < self@.entries.len() && sel@.selects(
                    (#[trigger] self@.entries[i]).regions,
                ) ==> self@.entries[i].anchor.fits() && (
                self@.entries[i].anchor matches TypedAnchor::Storage { ty, .. } ==> call_requires(
                    planes_of,
                    (ty,),
                )),
        ensures
            exists|planes: Seq<Option<usize>>| #[trigger]
                planes_given(planes_of, self@.entries, sel@, planes) && r@ == typed_selected(
                    self@.entries,
                    sel@,
                    planes,
                ),
    {
        let ghost es = self@.entries;
        let mut out: Vec<TypedBoundaryWire> = Vec::new();
        let ghost mut planes: Seq<Option<usize>> = Seq::empty();
        let mut i: usize = 0;
        assert(es.take(0) =~= Seq::empty());
        while i < self.entries.len()
            invariant
                i <= self.entries.len(),
                es == typed_entry_views(self.entries@),
                forall|k: int|
                    0 <= k < es.len() && sel@.selects((#[trigger] es[k]).regions)
                        ==> es[k].anchor.fits() && (es[k].anchor matches TypedAnchor::Storage {
                        ty,
                        ..
                    } ==> call_requires(planes_of, (ty,))),
                planes.len() == i,
                forall|k: int|
                    0 <= k < i && sel@.selects((#[trigger] es[k]).regions) ==> (
                    es[k].anchor matches TypedAnchor::Storage { ty, .. } ==> call_ensures(
                        planes_of,
                        (ty,),
                        planes[k],
                    )),
                out@ == typed_selected(es.take(i as int), sel@, planes),
            decreases self.entries.len() - i,
        {
            proof {
                assert(es.take(i + 1).drop_last() =~= es.take(i as int));
                assert(es.take(i + 1).last() == self.entries@[i as int]@);
                assert(es[i as int] == self.entries@[i as int]@);
            }
            let ghost before = planes;
            let ghost mut given: Option<usize> = None;
            if sel.matches(&self.entries[i].regions) {
                let anchor: TypedAnchor = self.entries[i].anchor;
                match anchor {
                    TypedAnchor::Storage { storage, ty, addr_start, addr_len } => {
                        let n: Option<usize> = planes_of(ty);
                        proof {
                            given = n;
                        }
                        match n {
                            Some(n) => {
                                push_cells(storage, ty, addr_start, addr_len, n, &mut out);
                            },
                            None => {
                                assert(out@ + Seq::<TypedBoundaryWire>::empty() =~= out@);
                            },
                        }
                    },
                    _ => {
                        push_bits(&anchor, &mut out);
                    },
                }
            }
            proof {
                planes = before.push(given);
                lemma_selected_planes(es.take(i as int), sel@, before, planes);
            }
            i += 1;
        }
        proof {
            assert(es.take(i as int) =~= es);
            assert(planes_given(planes_of, es, sel@, planes));
        }
        out
    }
}

/// A bit is selected exactly if some entry has it and regions that the
/// selector selects.
pub proof fn law_typed_selected(
    entries: Seq<TypedEntryView>,
    sel: SelectorView,
    planes: Seq<Option<usize>>,
    w: TypedBoundaryWire,
)
    ensures
        typed_selected(entries, sel, planes).contains(w) <==> exists|i: int|
            0 <= i < entries.len() && sel.selects((#[trigger] entries[i]).regions) && typed_wires(
                entries[i].anchor,
                planes[i],
            ).contains(w),
    decreases entries.len(),
{
    if entries.len() > 0 {
        let rest = entries.drop_last();
        let last = entries.last();
        law_typed_selected(rest, sel, planes, w);
        let a = typed_selected(rest, sel, planes);
        let b = typed_wires(last.anchor, planes[entries.len() - 1]);
        let all = typed_selected(entries, sel, planes);
        if a.contains(w) {
            let i = choose|i: int|
                0 <= i < rest.len() && sel.selects((#[trigger] rest[i]).regions) && typed_wires(
                    rest[i].anchor,
                    planes[i],
                ).contains(w);
            assert(entries[i] == rest[i]);
            let k = choose|k: int| 0 <= k < a.len() && a[k] == w;
            assert(all[k] == w);
        }
        if sel.selects(last.regions) && b.contains(w) {
            assert(entries[entries.len() - 1] == last);
            let k = choose|k: int| 0 <= k < b.len() && b[k] == w;
            assert(all[a.len() + k] == w);
        }
        if all.contains(w) {
            let k = choose|k: int| 0 <= k < all.len() && all[k] == w;
            if k < a.len() {
                assert(a[k] == w);
            } else {
                assert(b[k - a.len()] == w);
            }
        }
        if exists|i: int|
            0 <= i < entries.len() && sel.selects((#[trigger] entries[i]).regions) && typed_wires(
                entries[i].anchor,
                planes[i],
            ).contains(w) {
            let i = choose|i: int|
                0 <= i < entries.len() && sel.selects((#[trigger] entries[i]).regions)
                    && typed_wires(entries[i].anchor, planes[i]).contains(w);
            if i < rest.len() {
                assert(rest[i] == entries[i]);
            }
        }
    }
}

// ---------------------------------------------------------------------------
// Programs
// ---------------------------------------------------------------------------

/// The width of variable `v` of a circuit: of a parameter, or of what a
/// statement defines, if it defines a value with bits.
pub open spec fn var_width(
    table: Seq<IrTypeView>,
    params: Seq<IRTypeId>,
    stmts: Seq<StmtView>,
    v: int,
) -> Option<usize> {
    if 0 <= v < params.len() {
        bit_width(table, params[v])
    } else if params.len() <= v < params.len() + stmts.len() {
        match output_type(stmts[v - params.len()]) {
            Some(ty) => bit_width(table, ty),
            None => None,
        }
    } else {
        None
    }
}

/// Whether every type that a circuit speaks of has a layout.
pub open spec fn vars_have_layout(
    table: Seq<IrTypeView>,
    params: Seq<IRTypeId>,
    stmts: Seq<StmtView>,
) -> bool {
    &&& forall|i: int| 0 <= i < params.len() ==> has_layout(table, #[trigger] params[i])
    &&& forall|i: int|
        0 <= i < stmts.len() ==> (output_type(#[trigger] stmts[i]) matches Some(ty) ==> has_layout(
            table,
            ty,
        ))
}

/// The widths of the first `n` variables of a circuit.
pub open spec fn var_widths(
    table: Seq<IrTypeView>,
    params: Seq<IRTypeId>,
    stmts: Seq<StmtView>,
    n: int,
) -> Map<u32, usize> {
    Map::new(
        |v: u32| v < n && var_width(table, params, stmts, v as int) is Some,
        |v: u32| var_width(table, params, stmts, v as int).unwrap(),
    )
}

/// The width of every variable of a circuit that has one.
pub fn vcircuit_var_widths(host: &VCircuit, types: &IRTypes) -> (r: BTreeMap<u32, usize>)
    requires
        host.params@.len() + host.stmts@.len() <= u32::MAX,
        vars_have_layout(types@, host.params@, node_kinds(host.stmts@)),
    ensures
        r@ == var_widths(
            types@,
            host.params@,
            node_kinds(host.stmts@),
            (host.params@.len() + host.stmts@.len()) as int,
        ),
{
    broadcast use vstd::std_specs::btree::group_btree_axioms;

    let ghost table = types@;
    let ghost params = host.params@;
    let ghost stmts = node_kinds(host.stmts@);
    let mut widths: BTreeMap<u32, usize> = BTreeMap::new();
    let mut i: usize = 0;
    assert(widths@ =~= var_widths(table, params, stmts, 0));
    while i < host.params.len()
        invariant
            i <= host.params.len(),
            host.params@.len() + host.stmts@.len() <= u32::MAX,
            table == types@,
            params == host.params@,
            stmts == node_kinds(host.stmts@),
            vars_have_layout(table, params, stmts),
            widths@ == var_widths(table, params, stmts, i as int),
        decreases host.params.len() - i,
    {
        broadcast use vstd::std_specs::btree::group_btree_axioms;

        let w: Option<usize> = typed_bit_width(host.params[i], types);
        match w {
            Some(w) => {
                widths.insert(i as u32, w);
            },
            None => {},
        }
        i += 1;
        assert(widths@ =~= var_widths(table, params, stmts, i as int));
    }
    let mut j: usize = 0;
    while j < host.stmts.len()
        invariant
            j <= host.stmts.len(),
            host.params@.len() + host.stmts@.len() <= u32::MAX,
            table == types@,
            params == host.params@,
            stmts == node_kinds(host.stmts@),
            vars_have_layout(table, params, stmts),
            widths@ == var_widths(table, params, stmts, params.len() + j),
        decreases host.stmts.len() - j,
    {
        broadcast use vstd::std_specs::btree::group_btree_axioms;

        assert(stmts[j as int] == host.stmts@[j as int].kind@);
        match stmt_output_type(&host.stmts[j].kind) {
            Some(ty) => {
                let w: Option<usize> = typed_bit_width(ty, types);
                match w {
                    Some(w) => {
                        widths.insert(host.params.len() as u32 + j as u32, w);
                    },
                    None => {},
                }
            },
            None => {},
        }
        j += 1;
        assert(widths@ =~= var_widths(table, params, stmts, params.len() + j));
    }
    widths
}

/// What is wrong with a range of bits of something of the given width.
pub open spec fn range_error(a: TypedAnchor, start: u16, len: u16, width: Option<usize>) -> Option<
    TypedRegionError,
> {
    match width {
        None => Some(TypedRegionError::UnknownCarrier { anchor: a }),
        Some(w) => if start + len > w {
            Some(TypedRegionError::RangeOutOfRange { anchor: a, start, len, width: w })
        } else {
            None
        },
    }
}

/// The width of parameter `i`, if there is such a parameter and it has bits.
pub open spec fn param_width(table: Seq<IrTypeView>, params: Seq<IRTypeId>, i: int) -> Option<
    usize,
> {
    if 0 <= i < params.len() {
        bit_width(table, params[i])
    } else {
        None
    }
}

/// Whether a statement reads or writes a typed storage space.
pub open spec fn stmt_uses_typed(s: StmtView, storage: StorageId, ty: IRTypeId) -> bool {
    match s {
        StmtView::StorageRead { storage: a, ty: t, .. } => a == storage && t == ty,
        StmtView::StorageWrite { storage: a, ty: t, .. } => a == storage && t == ty,
        _ => false,
    }
}

/// Whether some statement reads or writes a typed storage space.
pub open spec fn stmts_use_typed(s: Seq<StmtView>, storage: StorageId, ty: IRTypeId) -> bool {
    exists|i: int| 0 <= i < s.len() && stmt_uses_typed(#[trigger] s[i], storage, ty)
}

/// Whether a program reads, writes or initialises a typed storage space.
pub open spec fn program_uses_typed(m: IRBlocksView, storage: StorageId, ty: IRTypeId) -> bool {
    ||| exists|b: int|
        0 <= b < m.blocks.len() && stmts_use_typed((#[trigger] m.blocks[b]).stmts, storage, ty)
    ||| exists|i: int|
        0 <= i < m.pre_init.len() && (#[trigger] m.pre_init[i]).storage == storage
            && m.pre_init[i].ty == ty
}

/// What is wrong with an anchor in a circuit.
pub open spec fn vcircuit_anchor_error(
    a: TypedAnchor,
    table: Seq<IrTypeView>,
    params: Seq<IRTypeId>,
    stmts: Seq<StmtView>,
    outputs: Seq<IRVarId>,
) -> Option<TypedRegionError> {
    match a {
        TypedAnchor::Input { param, start, len } => range_error(
            a,
            start,
            len,
            param_width(table, params, param as int),
        ),
        TypedAnchor::Output { out, start, len } => range_error(
            a,
            start,
            len,
            if out < outputs.len() {
                var_width(table, params, stmts, outputs[out as int].0 as int)
            } else {
                None
            },
        ),
        TypedAnchor::Storage { storage, ty, .. } => if stmts_use_typed(stmts, storage, ty) {
            None
        } else {
            Some(TypedRegionError::UnknownStorageSpace { storage, ty })
        },
        _ => Some(TypedRegionError::UnsupportedAnchor { anchor: a, host: "VCircuit" }),
    }
}

/// What is wrong with the first entry, from `from` on, that does not fit a
/// circuit.
pub open spec fn vcircuit_error(
    entries: Seq<TypedEntryView>,
    table: Seq<IrTypeView>,
    params: Seq<IRTypeId>,
    stmts: Seq<StmtView>,
    outputs: Seq<IRVarId>,
    from: int,
) -> Option<TypedRegionError>
    decreases entries.len() - from,
{
    if from >= entries.len() {
        None
    } else {
        match vcircuit_anchor_error(entries[from].anchor, table, params, stmts, outputs) {
            Some(e) => Some(e),
            None => vcircuit_error(entries, table, params, stmts, outputs, from + 1),
        }
    }
}

/// What is wrong with an anchor in a program of blocks.
pub open spec fn irblocks_anchor_error(
    a: TypedAnchor,
    table: Seq<IrTypeView>,
    m: IRBlocksView,
) -> Option<TypedRegionError> {
    match a {
        TypedAnchor::Input { param, start, len } => range_error(
            a,
            start,
            len,
            if m.blocks.len() > 0 {
                param_width(table, m.blocks[0].params, param as int)
            } else {
                None
            },
        ),
        TypedAnchor::BlockInput { block, param, start, len } => range_error(
            a,
            start,
            len,
            if block.0 < m.blocks.len() {
                param_width(table, m.blocks[block.0 as int].params, param as int)
            } else {
                None
            },
        ),
        TypedAnchor::Storage { storage, ty, .. } => if program_uses_typed(m, storage, ty) {
            None
        } else {
            Some(TypedRegionError::UnknownStorageSpace { storage, ty })
        },
        _ => Some(TypedRegionError::UnsupportedAnchor { anchor: a, host: "IRBlocks" }),
    }
}

/// What is wrong with the first entry, from `from` on, that does not fit a
/// program of blocks.
pub open spec fn irblocks_error(
    entries: Seq<TypedEntryView>,
    table: Seq<IrTypeView>,
    m: IRBlocksView,
    from: int,
) -> Option<TypedRegionError>
    decreases entries.len() - from,
{
    if from >= entries.len() {
        None
    } else {
        match irblocks_anchor_error(entries[from].anchor, table, m) {
            Some(e) => Some(e),
            None => irblocks_error(entries, table, m, from + 1),
        }
    }
}

/// The type of what an anchor is a range of, where that is a parameter of a
/// block.
pub open spec fn carrier_type(a: TypedAnchor, m: IRBlocksView) -> Option<IRTypeId> {
    match a {
        TypedAnchor::Input { param, .. } => if m.blocks.len() > 0 && param
            < m.blocks[0].params.len() {
            Some(m.blocks[0].params[param as int])
        } else {
            None
        },
        TypedAnchor::BlockInput { block, param, .. } => if block.0 < m.blocks.len() && param
            < m.blocks[block.0 as int].params.len() {
            Some(m.blocks[block.0 as int].params[param as int])
        } else {
            None
        },
        _ => None,
    }
}

/// Whether the types of what the entries are ranges of have a layout, as far
/// as the entries fit.
pub open spec fn carriers_have_layout(
    entries: Seq<TypedEntryView>,
    table: Seq<IrTypeView>,
    m: IRBlocksView,
    from: int,
) -> bool
    decreases entries.len() - from,
{
    if from >= entries.len() {
        true
    } else {
        &&& carrier_type(entries[from].anchor, m) matches Some(ty) ==> has_layout(table, ty)
        &&& irblocks_anchor_error(entries[from].anchor, table, m) is None ==> carriers_have_layout(
            entries,
            table,
            m,
            from + 1,
        )
    }
}

/// Check a range of bits of something of the given width.
fn check_range_width(a: TypedAnchor, start: u16, len: u16, width: Option<usize>) -> (r: Result<
    (),
    TypedRegionError,
>)
    ensures
        match r {
            Ok(_) => range_error(a, start, len, width) is None,
            Err(e) => range_error(a, start, len, width) == Some(e),
        },
{
    match width {
        None => Err(TypedRegionError::UnknownCarrier { anchor: a }),
        Some(width) => if (start as u32 + len as u32) as usize > width {
            Err(TypedRegionError::RangeOutOfRange { anchor: a, start, len, width })
        } else {
            Ok(())
        },
    }
}

/// Check a range of bits of a parameter.
fn check_range(
    a: TypedAnchor,
    param: u32,
    params: &Vec<IRTypeId>,
    types: &IRTypes,
    start: u16,
    len: u16,
) -> (r: Result<(), TypedRegionError>)
    requires
        param < params@.len() ==> has_layout(types@, params@[param as int]),
    ensures
        match r {
            Ok(_) => range_error(a, start, len, param_width(types@, params@, param as int)) is None,
            Err(e) => range_error(a, start, len, param_width(types@, params@, param as int))
                == Some(e),
        },
{
    if (param as usize) < params.len() {
        check_range_width(a, start, len, typed_bit_width(params[param as usize], types))
    } else {
        check_range_width(a, start, len, None)
    }
}

/// Whether some statement reads or writes a typed storage space.
fn nodes_use_typed(stmts: &Vec<Node<IRStmt, ()>>, storage: StorageId, ty: IRTypeId) -> (b: bool)
    ensures
        b == stmts_use_typed(node_kinds(stmts@), storage, ty),
{
    let ghost s = node_kinds(stmts@);
    let mut i: usize = 0;
    while i < stmts.len()
        invariant
            i <= stmts.len(),
            s == node_kinds(stmts@),
            forall|k: int| 0 <= k < i ==> !stmt_uses_typed(#[trigger] s[k], storage, ty),
        decreases stmts.len() - i,
    {
        assert(s[i as int] == stmts@[i as int].kind@);
        let used: bool = match &stmts[i].kind {
            IRStmt::StorageRead { storage: a, ty: t, .. } => *a == storage && *t == ty,
            IRStmt::StorageWrite { storage: a, ty: t, .. } => *a == storage && *t == ty,
            _ => false,
        };
        if used {
            assert(stmt_uses_typed(s[i as int], storage, ty));
            return true;
        }
        i += 1;
    }
    false
}

/// Whether a program reads, writes or initialises a typed storage space.
fn irblocks_uses_storage(host: &IRBlocks, storage: StorageId, ty: IRTypeId) -> (b: bool)
    ensures
        b == program_uses_typed(host@, storage, ty),
{
    let ghost m = host@;
    let mut i: usize = 0;
    while i < host.blocks.len()
        invariant
            i <= host.blocks.len(),
            m == host@,
            forall|k: int|
                0 <= k < i ==> !stmts_use_typed((#[trigger] m.blocks[k]).stmts, storage, ty),
        decreases host.blocks.len() - i,
    {
        assert(m.blocks[i as int] == host.blocks@[i as int]@);
        if nodes_use_typed(&host.blocks[i].stmts, storage, ty) {
            return true;
        }
        i += 1;
    }
    let mut j: usize = 0;
    while j < host.pre_init.len()
        invariant
            j <= host.pre_init.len(),
            m == host@,
            forall|k: int|
                0 <= k < m.blocks.len() ==> !stmts_use_typed(
                    (#[trigger] m.blocks[k]).stmts,
                    storage,
                    ty,
                ),
            forall|k: int|
                0 <= k < j ==> !((#[trigger] m.pre_init[k]).storage == storage && m.pre_init[k].ty
                    == ty),
        decreases host.pre_init.len() - j,
    {
        assert(m.pre_init[j as int] == host.pre_init@[j as int]@);
        if host.pre_init[j].storage == storage && host.pre_init[j].ty == ty {
            return true;
        }
        j += 1;
    }
    false
}

impl TypedRegionTable {
    /// Check the table against a circuit.
    pub fn validate_vcircuit(&self, host: &VCircuit, types: &IRTypes) -> (r: Result<
        (),
        TypedRegionError,
    >)
        requires
            structure_error(self@.entries, 0) is None ==> {
                &&& host.params@.len() + host.stmts@.len() <= u32::MAX
                &&& vars_have_layout(types@, host.params@, node_kinds(host.stmts@))
            },
        ensures
            ({
                let wrong = match structure_error(self@.entries, 0) {
                    Some(e) => Some(e),
                    None => vcircuit_error(
                        self@.entries,
                        types@,
                        host.params@,
                        node_kinds(host.stmts@),
                        host.outputs@,
                        0,
                    ),
                };
                match r {
                    Ok(_) => wrong is None,
                    Err(e) => wrong == Some(e),
                }
            }),
    {
        broadcast use vstd::std_specs::btree::group_btree_axioms;

        match self.validate_structure() {
            Ok(_) => {},
            Err(e) => {
                return Err(e);
            },
        }
        let widths = vcircuit_var_widths(host, types);
        let ghost es = self@.entries;
        let ghost stmts = node_kinds(host.stmts@);
        let ghost n = host.params@.len() + host.stmts@.len();
        let mut i: usize = 0;
        while i < self.entries.len()
            invariant
                i <= self.entries.len(),
                es == typed_entry_views(self.entries@),
                stmts == node_kinds(host.stmts@),
                n == host.params@.len() + host.stmts@.len(),
                n <= u32::MAX,
                structure_error(es, 0) is None,
                vars_have_layout(types@, host.params@, stmts),
                widths@ == var_widths(types@, host.params@, stmts, n as int),
                vcircuit_error(es, types@, host.params@, stmts, host.outputs@, 0)
                    == vcircuit_error(
                    es,
                    types@,
                    host.params@,
                    stmts,
                    host.outputs@,
                    i as int,
                ),
            decreases self.entries.len() - i,
        {
            broadcast use vstd::std_specs::btree::group_btree_axioms;

            let anchor: TypedAnchor = self.entries[i].anchor;
            assert(es[i as int] == self.entries@[i as int]@);
            let checked: Result<(), TypedRegionError> = match anchor {
                TypedAnchor::Input { param, start, len } => check_range(
                    anchor,
                    param,
                    &host.params,
                    types,
                    start,
                    len,
                ),
                TypedAnchor::Output { out, start, len } => {
                    let width: Option<usize> = if (out as usize) < host.outputs.len() {
                        match widths.get(&host.outputs[out as usize].0) {
                            Some(w) => Some(*w),
                            None => None,
                        }
                    } else {
                        None
                    };
                    check_range_width(anchor, start, len, width)
                },
                TypedAnchor::Storage { storage, ty, .. } => if nodes_use_typed(
                    &host.stmts,
                    storage,
                    ty,
                ) {
                    Ok(())
                } else {
                    Err(TypedRegionError::UnknownStorageSpace { storage, ty })
                },
                _ => Err(TypedRegionError::UnsupportedAnchor { anchor, host: "VCircuit" }),
            };
            match checked {
                Ok(_) => {},
                Err(e) => {
                    return Err(e);
                },
            }
            i += 1;
        }
        Ok(())
    }

    /// Check the table against a program of blocks. Anchors of inputs speak of
    /// the first block; there are no outputs.
    pub fn validate_irblocks(&self, host: &IRBlocks, types: &IRTypes) -> (r: Result<
        (),
        TypedRegionError,
    >)
        requires
            structure_error(self@.entries, 0) is None ==> carriers_have_layout(
                self@.entries,
                types@,
                host@,
                0,
            ),
        ensures
            ({
                let wrong = match structure_error(self@.entries, 0) {
                    Some(e) => Some(e),
                    None => irblocks_error(self@.entries, types@, host@, 0),
                };
                match r {
                    Ok(_) => wrong is None,
                    Err(e) => wrong == Some(e),
                }
            }),
    {
        match self.validate_structure() {
            Ok(_) => {},
            Err(e) => {
                return Err(e);
            },
        }
        let ghost es = self@.entries;
        let ghost m = host@;
        let mut i: usize = 0;
        while i < self.entries.len()
            invariant
                i <= self.entries.len(),
                es == typed_entry_views(self.entries@),
                m == host@,
                structure_error(es, 0) is None,
                carriers_have_layout(es, types@, m, i as int),
                irblocks_error(es, types@, m, 0) == irblocks_error(es, types@, m, i as int),
            decreases self.entries.len() - i,
        {
            let anchor: TypedAnchor = self.entries[i].anchor;
            assert(es[i as int] == self.entries@[i as int]@);
            let checked: Result<(), TypedRegionError> = match anchor {
                TypedAnchor::Input { param, start, len } => if host.blocks.len() > 0 {
                    assert(m.blocks[0] == host.blocks@[0]@);
                    check_range(anchor, param, &host.blocks[0].params, types, start, len)
                } else {
                    check_range_width(anchor, start, len, None)
                },
                TypedAnchor::BlockInput { block, param, start, len } => if (block.0 as usize)
                    < host.blocks.len() {
                    assert(m.blocks[block.0 as int] == host.blocks@[block.0 as int]@);
                    check_range(
                        anchor,
                        param,
                        &host.blocks[block.0 as usize].params,
                        types,
                        start,
                        len,
                    )
                } else {
                    check_range_width(anchor, start, len, None)
                },
                TypedAnchor::Storage { storage, ty, .. } => if irblocks_uses_storage(
                    host,
                    storage,
                    ty,
                ) {
                    Ok(())
                } else {
                    Err(TypedRegionError::UnknownStorageSpace { storage, ty })
                },
                _ => Err(TypedRegionError::UnsupportedAnchor { anchor, host: "IRBlocks" }),
            };
            match checked {
                Ok(_) => {},
                Err(e) => {
                    return Err(e);
                },
            }
            i += 1;
        }
        Ok(())
    }
}

impl Default for TypedRegionTable {
    fn default() -> (r: Self)
        ensures
            r@ == (TypedTableView { entries: Seq::empty(), names: Seq::empty() }),
    {
        TypedRegionTable::new()
    }
}

// ---------------------------------------------------------------------------
// Laws
// ---------------------------------------------------------------------------

/// In a table that fits a circuit every anchor is one of the circuit.
pub proof fn law_vcircuit_entries(
    entries: Seq<TypedEntryView>,
    table: Seq<IrTypeView>,
    params: Seq<IRTypeId>,
    stmts: Seq<StmtView>,
    outputs: Seq<IRVarId>,
    from: int,
    i: int,
)
    requires
        vcircuit_error(entries, table, params, stmts, outputs, from) is None,
        0 <= from <= i < entries.len(),
    ensures
        vcircuit_anchor_error(entries[i].anchor, table, params, stmts, outputs) is None,
    decreases i - from,
{
    if from < i {
        law_vcircuit_entries(entries, table, params, stmts, outputs, from + 1, i);
    }
}

/// In a table that fits a program of blocks every anchor is one of the program.
pub proof fn law_irblocks_entries(
    entries: Seq<TypedEntryView>,
    table: Seq<IrTypeView>,
    m: IRBlocksView,
    from: int,
    i: int,
)
    requires
        irblocks_error(entries, table, m, from) is None,
        0 <= from <= i < entries.len(),
    ensures
        irblocks_anchor_error(entries[i].anchor, table, m) is None,
    decreases i - from,
{
    if from < i {
        law_irblocks_entries(entries, table, m, from + 1, i);
    }
}

} // verus!
