//! The bytecode table that a virtualised module interprets.

use vstd::prelude::*;

use crate::common::Constant;
use crate::ir::IRBlockId;
use crate::virt::canon::ImmediateKind;

verus! {

/// The kinds of the values that a handler's rows supply.
#[derive(PartialEq, Eq, Debug)]
pub struct HandlerImmSchema {
    pub kinds: Vec<ImmediateKind>,
}

impl View for HandlerImmSchema {
    type V = Seq<ImmediateKind>;

    open spec fn view(&self) -> Seq<ImmediateKind> {
        self.kinds@
    }
}

/// How operands of a repeated body are found.
#[derive(Clone, Copy, PartialEq, Eq, Debug, Structural)]
pub enum OperandMode {
    RegisterFile,
    RamMux,
}

impl Default for OperandMode {
    fn default() -> (r: Self)
        ensures
            r == OperandMode::RegisterFile,
    {
        OperandMode::RegisterFile
    }
}

/// How often a repeated body runs.
#[derive(Clone, Copy, PartialEq, Eq, Debug, Structural)]
pub enum TripCount {
    Fixed(u32),
    /// A position among the values of the descriptor row.
    BytecodeSlot(usize),
}

/// What an appended region holds.
#[derive(PartialEq, Eq, Debug)]
pub enum AppendedRegionKind {
    /// Steps shared by several blocks: block, first and last statement of each
    /// occurrence.
    SharedCore { members: Vec<(usize, u32, u32)> },
    /// A counted repetition.
    RerollLoop {
        owner_block: usize,
        body_handler_idx: u32,
        trip_count: TripCount,
        operand_mode: OperandMode,
    },
}

/// What an [`AppendedRegionKind`] denotes.
#[verifier::ext_equal]
pub enum RegionKindView {
    SharedCore { members: Seq<(usize, u32, u32)> },
    RerollLoop {
        owner_block: usize,
        body_handler_idx: u32,
        trip_count: TripCount,
        operand_mode: OperandMode,
    },
}

impl View for AppendedRegionKind {
    type V = RegionKindView;

    open spec fn view(&self) -> RegionKindView {
        match *self {
            AppendedRegionKind::SharedCore { members } => RegionKindView::SharedCore {
                members: members@,
            },
            AppendedRegionKind::RerollLoop {
                owner_block,
                body_handler_idx,
                trip_count,
                operand_mode,
            } => RegionKindView::RerollLoop {
                owner_block,
                body_handler_idx,
                trip_count,
                operand_mode,
            },
        }
    }
}

impl Clone for AppendedRegionKind {
    fn clone(&self) -> (r: Self)
        ensures
            r@ == self@,
    {
        match self {
            AppendedRegionKind::SharedCore { members } => {
                let mut out: Vec<(usize, u32, u32)> = Vec::new();
                let mut i: usize = 0;
                while i < members.len()
                    invariant
                        i <= members.len(),
                        out@ == members@.take(i as int),
                    decreases members.len() - i,
                {
                    out.push((members[i].0, members[i].1, members[i].2));
                    assert(members@.take(i + 1) =~= members@.take(i as int).push(
                        members@[i as int],
                    ));
                    i += 1;
                }
                assert(members@.take(i as int) =~= members@);
                AppendedRegionKind::SharedCore { members: out }
            },
            AppendedRegionKind::RerollLoop {
                owner_block,
                body_handler_idx,
                trip_count,
                operand_mode,
            } => AppendedRegionKind::RerollLoop {
                owner_block: *owner_block,
                body_handler_idx: *body_handler_idx,
                trip_count: *trip_count,
                operand_mode: *operand_mode,
            },
        }
    }
}

/// An appended region and the rows that it occupies.
#[derive(PartialEq, Eq, Debug)]
pub struct AppendedRegionMeta {
    pub pc_start: u32,
    pub pc_end: u32,
    pub kind: AppendedRegionKind,
}

/// What an [`AppendedRegionMeta`] denotes.
#[verifier::ext_equal]
pub struct RegionMetaView {
    pub pc_start: u32,
    pub pc_end: u32,
    pub kind: RegionKindView,
}

impl View for AppendedRegionMeta {
    type V = RegionMetaView;

    open spec fn view(&self) -> RegionMetaView {
        RegionMetaView { pc_start: self.pc_start, pc_end: self.pc_end, kind: self.kind@ }
    }
}

impl Clone for AppendedRegionMeta {
    fn clone(&self) -> (r: Self)
        ensures
            r@ == self@,
    {
        AppendedRegionMeta {
            pc_start: self.pc_start,
            pc_end: self.pc_end,
            kind: self.kind.clone(),
        }
    }
}

/// The views of a list of regions.
pub open spec fn region_views(s: Seq<AppendedRegionMeta>) -> Seq<RegionMetaView> {
    s.map_values(|m: AppendedRegionMeta| m@)
}

/// What a row of the table is for.
#[derive(Clone, Copy, PartialEq, Eq, Debug, Structural)]
pub enum BytecodeRowKind {
    Outer,
    SharedCoreStep,
    RerollDescriptor,
}

impl Default for BytecodeRowKind {
    fn default() -> (r: Self)
        ensures
            r == BytecodeRowKind::Outer,
    {
        BytecodeRowKind::Outer
    }
}

/// A row of the table: a handler and the values that it is run with.
#[derive(PartialEq, Eq, Debug)]
pub struct BytecodeEntry {
    pub handler_idx: u32,
    pub consts: Vec<Constant>,
    pub targets: Vec<IRBlockId>,
    pub row_kind: BytecodeRowKind,
}

/// What a [`BytecodeEntry`] denotes.
#[verifier::ext_equal]
pub struct EntryView {
    pub handler_idx: u32,
    pub consts: Seq<Constant>,
    pub targets: Seq<IRBlockId>,
    pub row_kind: BytecodeRowKind,
}

impl View for BytecodeEntry {
    type V = EntryView;

    open spec fn view(&self) -> EntryView {
        EntryView {
            handler_idx: self.handler_idx,
            consts: self.consts@,
            targets: self.targets@,
            row_kind: self.row_kind,
        }
    }
}

impl BytecodeEntry {
    /// A row of the outer program.
    pub fn outer(handler_idx: u32, consts: Vec<Constant>, targets: Vec<IRBlockId>) -> (r: Self)
        ensures
            r@ == (EntryView {
                handler_idx,
                consts: consts@,
                targets: targets@,
                row_kind: BytecodeRowKind::Outer,
            }),
    {
        BytecodeEntry { handler_idx, consts, targets, row_kind: BytecodeRowKind::Outer }
    }
}

/// The whole table.
#[derive(PartialEq, Eq, Debug)]
pub struct VirtBytecode {
    pub n_handlers: usize,
    pub handler_schemas: Vec<HandlerImmSchema>,
    pub entries: Vec<BytecodeEntry>,
    /// How many of the first rows are the outer program.
    pub outer_block_count: usize,
    pub regions: Vec<AppendedRegionMeta>,
}

/// The views of a list of schemas.
pub open spec fn schema_views(s: Seq<HandlerImmSchema>) -> Seq<Seq<ImmediateKind>> {
    s.map_values(|h: HandlerImmSchema| h@)
}

/// The views of a list of rows.
pub open spec fn entry_views(s: Seq<BytecodeEntry>) -> Seq<EntryView> {
    s.map_values(|e: BytecodeEntry| e@)
}

/// What a [`VirtBytecode`] denotes.
#[verifier::ext_equal]
pub struct BytecodeView {
    pub n_handlers: usize,
    pub handler_schemas: Seq<Seq<ImmediateKind>>,
    pub entries: Seq<EntryView>,
    pub outer_block_count: usize,
    pub regions: Seq<RegionMetaView>,
}

impl View for VirtBytecode {
    type V = BytecodeView;

    open spec fn view(&self) -> BytecodeView {
        BytecodeView {
            n_handlers: self.n_handlers,
            handler_schemas: schema_views(self.handler_schemas@),
            entries: entry_views(self.entries@),
            outer_block_count: self.outer_block_count,
            regions: region_views(self.regions@),
        }
    }
}

impl VirtBytecode {
    /// A table without rows.
    pub fn new() -> (r: Self)
        ensures
            r@ == (BytecodeView {
                n_handlers: 0,
                handler_schemas: Seq::empty(),
                entries: Seq::empty(),
                outer_block_count: 0,
                regions: Seq::empty(),
            }),
    {
        let r = VirtBytecode {
            n_handlers: 0,
            handler_schemas: Vec::new(),
            entries: Vec::new(),
            outer_block_count: 0,
            regions: Vec::new(),
        };
        assert(r@ =~= (BytecodeView {
            n_handlers: 0,
            handler_schemas: Seq::empty(),
            entries: Seq::empty(),
            outer_block_count: 0,
            regions: Seq::empty(),
        }));
        r
    }

    /// The number of rows.
    pub fn len(&self) -> (r: usize)
        ensures
            r == self@.entries.len(),
    {
        self.entries.len()
    }

    /// Whether the table has no rows.
    pub fn is_empty(&self) -> (r: bool)
        ensures
            r == (self@.entries.len() == 0),
    {
        self.entries.len() == 0
    }
}

impl Default for VirtBytecode {
    fn default() -> (r: Self)
        ensures
            r@.entries.len() == 0,
            r@.handler_schemas.len() == 0,
            r@.regions.len() == 0,
            r.n_handlers == 0,
            r.outer_block_count == 0,
    {
        VirtBytecode::new()
    }
}

} // verus!
