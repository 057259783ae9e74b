//! Gadgets: named sub-circuits for the wires of a region.

use vstd::prelude::*;

use crate::boolar::LaneId;
use crate::circuit::BCircuit;
use crate::common::StorageId;
use crate::region::{
    region_set, BoundaryWire, RegionError, RegionId, RegionSelector, RegionSet, SelectorView,
    WireAnchor,
};

verus! {

/// What a port of a gadget is for.
#[derive(Clone, Copy, PartialEq, Eq, Debug, Structural)]
pub enum PortKind {
    /// The wires of the region.
    Data,
    /// Material from outside.
    Aux,
    /// Fresh random bits.
    Rng,
}

/// A port of a gadget.
#[derive(PartialEq, Eq, Debug)]
pub struct Port {
    pub name: String,
    pub kind: PortKind,
    /// The number of bits.
    pub width: u64,
}

/// What a [`Port`] denotes.
#[verifier::ext_equal]
pub struct PortView {
    pub name: Seq<char>,
    pub kind: PortKind,
    pub width: u64,
}

impl View for Port {
    type V = PortView;

    open spec fn view(&self) -> PortView {
        PortView { name: self.name@, kind: self.kind, width: self.width }
    }
}

/// The views of a list of ports.
pub open spec fn port_views(s: Seq<Port>) -> Seq<PortView> {
    s.map_values(|p: Port| p@)
}

/// A gadget: bodies for both directions, and its ports. Without a body for
/// decryption that for encryption is its own inverse.
#[derive(PartialEq, Eq, Debug)]
pub struct GadgetSpec {
    pub name: String,
    pub encrypt: BCircuit<()>,
    pub decrypt: Option<BCircuit<()>>,
    pub ports: Vec<Port>,
}

/// The width of the first port of data.
pub open spec fn first_data_width(ports: Seq<PortView>) -> Option<u64>
    decreases ports.len(),
{
    if ports.len() == 0 {
        None
    } else if ports[0].kind == PortKind::Data {
        Some(ports[0].width)
    } else {
        first_data_width(ports.drop_first())
    }
}

/// The number of bits of the first `n` ports.
pub open spec fn width_before(ports: Seq<PortView>, n: int) -> nat
    decreases n,
{
    if n <= 0 {
        0
    } else {
        width_before(ports, n - 1) + ports[n - 1].width as nat
    }
}

/// The names and widths of the ports for outside material.
pub open spec fn aux_ports(ports: Seq<PortView>) -> Seq<(Seq<char>, u64)>
    decreases ports.len(),
{
    if ports.len() == 0 {
        Seq::empty()
    } else {
        let rest = aux_ports(ports.drop_last());
        if ports.last().kind == PortKind::Aux {
            rest.push((ports.last().name, ports.last().width))
        } else {
            rest
        }
    }
}

proof fn lemma_width_grows(ports: Seq<PortView>, i: int, n: int)
    requires
        0 <= i <= n <= ports.len(),
    ensures
        width_before(ports, i) <= width_before(ports, n),
    decreases n - i,
{
    if i < n {
        lemma_width_grows(ports, i, n - 1);
    }
}

impl GadgetSpec {
    /// The width of the first port of data.
    pub fn data_width(&self) -> (r: Option<u64>)
        ensures
            r == first_data_width(port_views(self.ports@)),
    {
        let ghost pv = port_views(self.ports@);
        let mut i: usize = 0;
        assert(pv.skip(0) =~= pv);
        while i < self.ports.len()
            invariant
                i <= self.ports.len(),
                pv == port_views(self.ports@),
                first_data_width(pv) == first_data_width(pv.skip(i as int)),
            decreases self.ports.len() - i,
        {
            assert(pv.skip(i as int)[0] == self.ports@[i as int]@);
            assert(pv.skip(i as int).drop_first() =~= pv.skip(i + 1));
            if self.ports[i].kind == PortKind::Data {
                return Some(self.ports[i].width);
            }
            i += 1;
        }
        None
    }

    /// The body for a direction.
    pub fn body_for(&self, decrypt: bool) -> (r: &BCircuit<()>)
        ensures
            *r == (match self.decrypt {
                Some(d) => if decrypt {
                    d
                } else {
                    self.encrypt
                },
                None => self.encrypt,
            }),
    {
        match &self.decrypt {
            Some(d) => if decrypt {
                d
            } else {
                &self.encrypt
            },
            None => &self.encrypt,
        }
    }

    /// Where each port starts in the inputs of a body.
    pub fn port_offsets(&self) -> (r: Vec<u64>)
        requires
            width_before(port_views(self.ports@), self.ports@.len() as int) <= u64::MAX,
        ensures
            r@ == Seq::new(
                self.ports@.len(),
                |i: int| width_before(port_views(self.ports@), i) as u64,
            ),
    {
        let ghost pv = port_views(self.ports@);
        let mut out: Vec<u64> = Vec::new();
        let mut off: u64 = 0;
        let mut i: usize = 0;
        while i < self.ports.len()
            invariant
                i <= self.ports.len(),
                pv == port_views(self.ports@),
                width_before(pv, pv.len() as int) <= u64::MAX,
                off == width_before(pv, i as int),
                out@.len() == i,
                forall|k: int| 0 <= k < i ==> #[trigger] out@[k] == width_before(pv, k) as u64,
            decreases self.ports.len() - i,
        {
            proof {
                lemma_width_grows(pv, i + 1, pv.len() as int);
                assert(pv[i as int] == self.ports@[i as int]@);
            }
            out.push(off);
            off += self.ports[i].width;
            i += 1;
        }
        assert(out@ =~= Seq::new(pv.len(), |k: int| width_before(pv, k) as u64));
        out
    }

    /// The names and widths of the ports for outside material.
    pub fn aux_widths(&self) -> (r: Vec<(String, u64)>)
        ensures
            r@.map_values(|p: (String, u64)| (p.0@, p.1)) == aux_ports(port_views(self.ports@)),
    {
        let ghost pv = port_views(self.ports@);
        let mut out: Vec<(String, u64)> = Vec::new();
        let mut i: usize = 0;
        proof {
            assert(pv.take(0) =~= Seq::empty());
            assert(out@.map_values(|p: (String, u64)| (p.0@, p.1)) =~= Seq::empty());
        }
        while i < self.ports.len()
            invariant
                i <= self.ports.len(),
                pv == port_views(self.ports@),
                out@.map_values(|p: (String, u64)| (p.0@, p.1)) == aux_ports(pv.take(i as int)),
            decreases self.ports.len() - i,
        {
            proof {
                assert(pv.take(i + 1).drop_last() =~= pv.take(i as int));
                assert(pv.take(i + 1).last() == self.ports@[i as int]@);
            }
            if self.ports[i].kind == PortKind::Aux {
                let ghost before = out@;
                out.push((self.ports[i].name.clone(), self.ports[i].width));
                assert(out@.map_values(|p: (String, u64)| (p.0@, p.1)) =~= before.map_values(
                    |p: (String, u64)| (p.0@, p.1),
                ).push((self.ports@[i as int].name@, self.ports@[i as int].width)));
            }
            i += 1;
        }
        assert(pv.take(i as int) =~= pv);
        out
    }
}

/// Where the bits of a port for outside material come from.
#[derive(PartialEq, Eq, Debug)]
pub enum AuxSource {
    /// Input bits of the host.
    InputRange { start: u32, len: u32 },
    /// Constant bits.
    Const(Vec<bool>),
    /// A random source.
    Rng(String),
}

/// What an [`AuxSource`] denotes.
#[verifier::ext_equal]
pub enum AuxView {
    InputRange { start: u32, len: u32 },
    Const(Seq<bool>),
    Rng(Seq<char>),
}

impl View for AuxSource {
    type V = AuxView;

    open spec fn view(&self) -> AuxView {
        match *self {
            AuxSource::InputRange { start, len } => AuxView::InputRange { start, len },
            AuxSource::Const(bits) => AuxView::Const(bits@),
            AuxSource::Rng(name) => AuxView::Rng(name@),
        }
    }
}

/// The views of a list of sources.
pub open spec fn aux_views(s: Seq<AuxSource>) -> Seq<AuxView> {
    s.map_values(|a: AuxSource| a@)
}

impl AuxSource {
    /// The number of bits; that of a random source is up to the port.
    pub open spec fn bits(self) -> nat {
        match self {
            AuxSource::InputRange { len, .. } => len as nat,
            AuxSource::Const(bits) => bits@.len(),
            AuxSource::Rng(_) => 0,
        }
    }

    /// The number of bits.
    pub fn width(&self) -> (r: u64)
        ensures
            r == self.bits(),
    {
        match self {
            AuxSource::InputRange { len, .. } => *len as u64,
            AuxSource::Const(bits) => bits.len() as u64,
            AuxSource::Rng(_) => 0,
        }
    }
}

/// A gadget for the wires that a selector selects.
#[derive(PartialEq, Eq, Debug)]
pub struct GadgetBinding {
    pub gadget: String,
    pub selector: RegionSelector,
    /// One source for each port for outside material.
    pub aux_sources: Vec<AuxSource>,
    pub rng_source: Option<String>,
}

/// What a [`GadgetBinding`] denotes.
#[verifier::ext_equal]
pub struct BindingView {
    pub gadget: Seq<char>,
    pub selector: SelectorView,
    pub aux_sources: Seq<AuxView>,
    pub rng_source: Option<Seq<char>>,
}

impl View for GadgetBinding {
    type V = BindingView;

    open spec fn view(&self) -> BindingView {
        BindingView {
            gadget: self.gadget@,
            selector: self.selector@,
            aux_sources: aux_views(self.aux_sources@),
            rng_source: match self.rng_source {
                Some(name) => Some(name@),
                None => None,
            },
        }
    }
}

/// The views of a list of bindings.
pub open spec fn binding_views(s: Seq<GadgetBinding>) -> Seq<BindingView> {
    s.map_values(|b: GadgetBinding| b@)
}

/// The gadgets at hand.
#[derive(PartialEq, Eq, Debug)]
pub struct GadgetLibrary {
    pub gadgets: Vec<GadgetSpec>,
}

/// The place of the first gadget with a name, or the number of gadgets.
pub open spec fn gadget_place(gadgets: Seq<GadgetSpec>, name: Seq<char>) -> int
    decreases gadgets.len(),
{
    if gadgets.len() == 0 {
        0
    } else if gadgets[0].name@ == name {
        0
    } else {
        1 + gadget_place(gadgets.drop_first(), name)
    }
}

impl Default for GadgetLibrary {
    fn default() -> (r: Self)
        ensures
            r.gadgets@.len() == 0,
    {
        GadgetLibrary::new()
    }
}

impl GadgetLibrary {
    /// No gadgets.
    pub fn new() -> (r: Self)
        ensures
            r.gadgets@.len() == 0,
    {
        GadgetLibrary { gadgets: Vec::new() }
    }

    /// With another gadget.
    pub fn with(self, spec: GadgetSpec) -> (r: Self)
        ensures
            r.gadgets@ == self.gadgets@.push(spec),
    {
        let mut gadgets = self.gadgets;
        gadgets.push(spec);
        GadgetLibrary { gadgets }
    }

    /// The first gadget with a name.
    pub fn get(&self, name: &str) -> (r: Option<&GadgetSpec>)
        ensures
            match r {
                Some(g) => gadget_place(self.gadgets@, name@) < self.gadgets@.len() && *g
                    == self.gadgets@[gadget_place(self.gadgets@, name@)],
                None => gadget_place(self.gadgets@, name@) == self.gadgets@.len(),
            },
    {
        let ghost gs = self.gadgets@;
        let wanted: String = name.to_owned();
        let mut i: usize = 0;
        assert(gs.skip(0) =~= gs);
        while i < self.gadgets.len()
            invariant
                i <= self.gadgets.len(),
                gs == self.gadgets@,
                wanted@ == name@,
                gadget_place(gs, name@) == i + gadget_place(gs.skip(i as int), name@),
            decreases self.gadgets.len() - i,
        {
            assert(gs.skip(i as int)[0] == gs[i as int]);
            assert(gs.skip(i as int).drop_first() =~= gs.skip(i + 1));
            if self.gadgets[i].name == wanted {
                return Some(&self.gadgets[i]);
            }
            i += 1;
        }
        None
    }
}

/// What keeps gadgets from being applied.
#[derive(PartialEq, Eq, Debug)]
#[allow(inconsistent_fields)]
pub enum GadgetError {
    /// The table of regions does not fit the circuit.
    Region(RegionError),
    UnknownGadget(String),
    /// A selector selects no wires.
    EmptySelection,
    DataWidthMismatch { gadget: String, port: u64, wires: u64, boundary: &'static str },
    AuxWidthMismatch { gadget: String, port: String, expected: u64, got: u64 },
    UnsupportedRng,
    AuxInputOutOfRange { start: u32, len: u32, params: u32 },
    AuxRangeOverlapsSelection { wire: BoundaryWire },
    OverlappingBindings { wire: BoundaryWire },
    InvalidGadgetBody { gadget: String, reason: &'static str },
    DynamicStorageAddress,
    StorageAddressTooWide { bits: usize },
    PreInitNeedsConstantAux { gadget: String },
    UnsupportedHostStmt(&'static str),
    Internal(String),
}

/// An anchor of input bits.
pub fn input_range(start: u32, len: u32) -> (r: WireAnchor)
    ensures
        r == (WireAnchor::Input { start, len }),
{
    WireAnchor::Input { start, len }
}

/// An anchor of output bits.
pub fn output_range(start: u32, len: u32) -> (r: WireAnchor)
    ensures
        r == (WireAnchor::Output { start, len }),
{
    WireAnchor::Output { start, len }
}

/// An anchor of storage cells.
pub fn storage_range(storage: StorageId, lane: LaneId, start: u64, len: u64) -> (r: WireAnchor)
    ensures
        r == (WireAnchor::Storage { storage, lane, start, len }),
{
    WireAnchor::Storage { storage, lane, start, len }
}

/// A selector of the wires in all regions of one list and in none of another.
pub fn selector(all: &[RegionId], none: &[RegionId]) -> (r: RegionSelector)
    ensures
        r@ == (SelectorView { all_of: region_set(all@), none_of: region_set(none@) }),
{
    RegionSelector { all_of: RegionSet::from_ids(all), none_of: RegionSet::from_ids(none) }
}

} // verus!
