//! Gadgets with typed ports and bodies.

use vstd::prelude::*;

use crate::circuit::VCircuit;
use crate::common::{type_ids_eq, Constant, IrTypeView, Node};
use crate::gadget::PortKind;
use crate::ir::{
    node_kinds, output_type, stmt_output_type, IRStmt, IRTypeId, IRTypes, IRVarId, StmtView,
};
use crate::region::{RegionSelector, SelectorView};
use crate::typed_region::{bit_width, has_layout, typed_bit_width};

verus! {

/// A port of a typed gadget: `count` words of one type.
#[derive(PartialEq, Eq, Debug)]
pub struct TypedPort {
    pub name: String,
    pub kind: PortKind,
    pub ty: IRTypeId,
    pub count: usize,
}

/// What a [`TypedPort`] denotes.
#[verifier::ext_equal]
pub struct TypedPortView {
    pub name: Seq<char>,
    pub kind: PortKind,
    pub ty: IRTypeId,
    pub count: usize,
}

impl View for TypedPort {
    type V = TypedPortView;

    open spec fn view(&self) -> TypedPortView {
        TypedPortView { name: self.name@, kind: self.kind, ty: self.ty, count: self.count }
    }
}

/// The views of a list of ports.
pub open spec fn typed_port_views(s: Seq<TypedPort>) -> Seq<TypedPortView> {
    s.map_values(|p: TypedPort| p@)
}

/// A typed gadget: bodies for both directions, and its ports. A body takes the
/// words of the ports in order and gives back those of the port of data; it
/// only computes. Without a body for decryption that for encryption is its own
/// inverse.
#[derive(PartialEq, Eq, Debug)]
pub struct TypedGadgetSpec {
    pub name: String,
    pub ports: Vec<TypedPort>,
    pub encrypt: VCircuit,
    pub decrypt: Option<VCircuit>,
}

/// The place of the first port of data, or the number of ports.
pub open spec fn data_place(ports: Seq<TypedPortView>) -> int
    decreases ports.len(),
{
    if ports.len() == 0 || ports[0].kind == PortKind::Data {
        0
    } else {
        1 + data_place(ports.drop_first())
    }
}

/// The number of ports of data.
pub open spec fn data_ports(ports: Seq<TypedPortView>) -> nat
    decreases ports.len(),
{
    if ports.len() == 0 {
        0
    } else {
        data_ports(ports.drop_last()) + if ports.last().kind == PortKind::Data {
            1nat
        } else {
            0
        }
    }
}

/// The types of the words of the ports, in order.
pub open spec fn word_types(ports: Seq<TypedPortView>) -> Seq<IRTypeId>
    decreases ports.len(),
{
    if ports.len() == 0 {
        Seq::empty()
    } else {
        word_types(ports.drop_last()) + Seq::new(
            ports.last().count as nat,
            |i: int| ports.last().ty,
        )
    }
}

/// The number of bits of a port, if its type has bits; at most the largest
/// number.
pub open spec fn port_width(table: Seq<IrTypeView>, p: TypedPortView) -> Option<usize> {
    match bit_width(table, p.ty) {
        Some(w) => Some(
            if w * p.count > usize::MAX {
                usize::MAX
            } else {
                (w * p.count) as usize
            },
        ),
        None => None,
    }
}

/// The number of bits of a port; none for a type without bits.
pub open spec fn aux_width(table: Seq<IrTypeView>, p: TypedPortView) -> int {
    match bit_width(table, p.ty) {
        Some(w) => w * p.count,
        None => 0,
    }
}

/// The names and widths of the ports for outside material.
pub open spec fn typed_aux_ports(table: Seq<IrTypeView>, ports: Seq<TypedPortView>) -> Seq<
    (Seq<char>, usize),
>
    decreases ports.len(),
{
    if ports.len() == 0 {
        Seq::empty()
    } else {
        let rest = typed_aux_ports(table, ports.drop_last());
        if ports.last().kind == PortKind::Aux {
            rest.push((ports.last().name, aux_width(table, ports.last()) as usize))
        } else {
            rest
        }
    }
}

proof fn lemma_data_place(ports: Seq<TypedPortView>)
    ensures
        0 <= data_place(ports) <= ports.len(),
        data_place(ports) < ports.len() ==> ports[data_place(ports)].kind == PortKind::Data,
        data_ports(ports) > 0 ==> data_place(ports) < ports.len(),
    decreases ports.len(),
{
    if ports.len() > 0 && ports[0].kind != PortKind::Data {
        lemma_data_place(ports.drop_first());
        lemma_data_ports_first(ports);
    }
}

proof fn lemma_data_ports_first(ports: Seq<TypedPortView>)
    requires
        ports.len() > 0,
    ensures
        data_ports(ports) == data_ports(ports.drop_first()) + if ports[0].kind == PortKind::Data {
            1nat
        } else {
            0
        },
    decreases ports.len(),
{
    if ports.len() > 1 {
        lemma_data_ports_first(ports.drop_last());
        assert(ports.drop_last().drop_first() =~= ports.drop_first().drop_last());
        assert(ports.drop_last()[0] == ports[0]);
        assert(ports.drop_first().last() == ports.last());
    } else {
        assert(ports.drop_last() =~= ports.drop_first());
        assert(data_ports(ports.drop_first()) == 0);
    }
}

impl TypedGadgetSpec {
    /// The ports.
    pub open spec fn port_views(&self) -> Seq<TypedPortView> {
        typed_port_views(self.ports@)
    }

    /// The first port of data.
    pub fn data_port(&self) -> (r: Option<&TypedPort>)
        ensures
            match r {
                Some(p) => 0 <= data_place(self.port_views()) < self.ports@.len() && *p
                    == self.ports@[data_place(self.port_views())],
                None => data_place(self.port_views()) == self.ports@.len(),
            },
    {
        let ghost pv = self.port_views();
        let mut i: usize = 0;
        assert(pv.skip(0) =~= pv);
        while i < self.ports.len()
            invariant
                i <= self.ports.len(),
                pv == typed_port_views(self.ports@),
                data_place(pv) == i + data_place(pv.skip(i as int)),
            decreases self.ports.len() - i,
        {
            assert(pv.skip(i as int)[0] == self.ports@[i as int]@);
            assert(pv.skip(i as int).drop_first() =~= pv.skip(i + 1));
            if self.ports[i].kind == PortKind::Data {
                return Some(&self.ports[i]);
            }
            i += 1;
        }
        None
    }

    /// The number of bits of the first port of data, if it has bits.
    pub fn data_bit_width(&self, types: &IRTypes) -> (r: Option<usize>)
        requires
            data_place(self.port_views()) < self.ports@.len() ==> has_layout(
                types@,
                self.ports@[data_place(self.port_views())].ty,
            ),
        ensures
            r == (if data_place(self.port_views()) < self.ports@.len() {
                port_width(types@, self.ports@[data_place(self.port_views())]@)
            } else {
                None
            }),
    {
        match self.data_port() {
            Some(p) => match typed_bit_width(p.ty, types) {
                Some(w) => match w.checked_mul(p.count) {
                    Some(n) => Some(n),
                    None => Some(usize::MAX),
                },
                None => None,
            },
            None => None,
        }
    }

    /// The body for a direction.
    pub fn body_for(&self, decrypt: bool) -> (r: &VCircuit)
        ensures
            *r == (match self.decrypt {
                Some(d) => if decrypt {
                    d
                } else {
                    self.encrypt
                },
                None => self.encrypt,
            }),
    {
        match &self.decrypt {
            Some(d) => if decrypt {
                d
            } else {
                &self.encrypt
            },
            None => &self.encrypt,
        }
    }

    /// The types of the words of the ports, in order.
    pub fn port_word_types(&self) -> (r: Vec<IRTypeId>)
        ensures
            r@ == word_types(self.port_views()),
    {
        let ghost pv = self.port_views();
        let mut out: Vec<IRTypeId> = Vec::new();
        let mut i: usize = 0;
        assert(pv.take(0) =~= Seq::empty());
        while i < self.ports.len()
            invariant
                i <= self.ports.len(),
                pv == typed_port_views(self.ports@),
                out@ == word_types(pv.take(i as int)),
            decreases self.ports.len() - i,
        {
            proof {
                assert(pv.take(i + 1).drop_last() =~= pv.take(i as int));
                assert(pv.take(i + 1).last() == self.ports@[i as int]@);
            }
            let ty: IRTypeId = self.ports[i].ty;
            let count: usize = self.ports[i].count;
            let ghost before = out@;
            let mut k: usize = 0;
            assert(before + Seq::new(0, |j: int| ty) =~= before);
            while k < count
                invariant
                    k <= count,
                    out@ == before + Seq::new(k as nat, |j: int| ty),
                decreases count - k,
            {
                out.push(ty);
                k += 1;
                assert(out@ =~= before + Seq::new(k as nat, |j: int| ty));
            }
            i += 1;
            assert(out@ =~= word_types(pv.take(i as int)));
        }
        assert(pv.take(i as int) =~= pv);
        out
    }

    /// The names and widths of the ports for outside material.
    pub fn aux_bit_widths(&self, types: &IRTypes) -> (r: Vec<(String, usize)>)
        requires
            forall|i: int|
                0 <= i < self.ports@.len() && (#[trigger] self.ports@[i]).kind == PortKind::Aux
                    ==> has_layout(types@, self.ports@[i].ty) && aux_width(
                    types@,
                    self.ports@[i]@,
                ) <= usize::MAX,
        ensures
            r@.map_values(|p: (String, usize)| (p.0@, p.1)) == typed_aux_ports(
                types@,
                self.port_views(),
            ),
    {
        let ghost pv = self.port_views();
        let mut out: Vec<(String, usize)> = Vec::new();
        let mut i: usize = 0;
        proof {
            assert(pv.take(0) =~= Seq::empty());
            assert(out@.map_values(|p: (String, usize)| (p.0@, p.1)) =~= Seq::empty());
        }
        while i < self.ports.len()
            invariant
                i <= self.ports.len(),
                pv == typed_port_views(self.ports@),
                forall|k: int|
                    0 <= k < self.ports@.len() && (#[trigger] self.ports@[k]).kind == PortKind::Aux
                        ==> has_layout(types@, self.ports@[k].ty) && aux_width(
                        types@,
                        self.ports@[k]@,
                    ) <= usize::MAX,
                out@.map_values(|p: (String, usize)| (p.0@, p.1)) == typed_aux_ports(
                    types@,
                    pv.take(i as int),
                ),
            decreases self.ports.len() - i,
        {
            proof {
                assert(pv.take(i + 1).drop_last() =~= pv.take(i as int));
                assert(pv.take(i + 1).last() == self.ports@[i as int]@);
            }
            if self.ports[i].kind == PortKind::Aux {
                let ghost before = out@;
                let w: usize = match typed_bit_width(self.ports[i].ty, types) {
                    Some(w) => w * self.ports[i].count,
                    None => 0,
                };
                out.push((self.ports[i].name.clone(), w));
                assert(out@.map_values(|p: (String, usize)| (p.0@, p.1)) =~= before.map_values(
                    |p: (String, usize)| (p.0@, p.1),
                ).push((self.ports@[i as int].name@, w)));
            }
            i += 1;
        }
        assert(pv.take(i as int) =~= pv);
        out
    }
}

/// Where the bits of a port for outside material come from.
#[derive(PartialEq, Eq, Debug)]
pub enum TypedAuxSource {
    /// Bits of a parameter of the host, from `start` on.
    InputRange { param: u32, start: u16 },
    /// One constant for each word.
    Const(Vec<Constant>),
    /// A random source.
    Rng(String),
}

/// What a [`TypedAuxSource`] denotes.
#[verifier::ext_equal]
pub enum TypedAuxView {
    InputRange { param: u32, start: u16 },
    Const(Seq<Constant>),
    Rng(Seq<char>),
}

impl View for TypedAuxSource {
    type V = TypedAuxView;

    open spec fn view(&self) -> TypedAuxView {
        match *self {
            TypedAuxSource::InputRange { param, start } => TypedAuxView::InputRange {
                param,
                start,
            },
            TypedAuxSource::Const(words) => TypedAuxView::Const(words@),
            TypedAuxSource::Rng(name) => TypedAuxView::Rng(name@),
        }
    }
}

/// The views of a list of sources.
pub open spec fn typed_aux_views(s: Seq<TypedAuxSource>) -> Seq<TypedAuxView> {
    s.map_values(|a: TypedAuxSource| a@)
}

/// A gadget for the bits that a selector selects.
#[derive(PartialEq, Eq, Debug)]
pub struct TypedGadgetBinding {
    pub gadget: String,
    pub selector: RegionSelector,
    /// One source for each port for outside material.
    pub aux_sources: Vec<TypedAuxSource>,
    pub rng_source: Option<String>,
}

/// What a [`TypedGadgetBinding`] denotes.
#[verifier::ext_equal]
pub struct TypedBindingView {
    pub gadget: Seq<char>,
    pub selector: SelectorView,
    pub aux_sources: Seq<TypedAuxView>,
    pub rng_source: Option<Seq<char>>,
}

impl View for TypedGadgetBinding {
    type V = TypedBindingView;

    open spec fn view(&self) -> TypedBindingView {
        TypedBindingView {
            gadget: self.gadget@,
            selector: self.selector@,
            aux_sources: typed_aux_views(self.aux_sources@),
            rng_source: match self.rng_source {
                Some(name) => Some(name@),
                None => None,
            },
        }
    }
}

/// The views of a list of bindings.
pub open spec fn typed_binding_views(s: Seq<TypedGadgetBinding>) -> Seq<TypedBindingView> {
    s.map_values(|b: TypedGadgetBinding| b@)
}

/// The typed gadgets at hand.
#[derive(PartialEq, Eq, Debug)]
pub struct TypedGadgetLibrary {
    pub gadgets: Vec<TypedGadgetSpec>,
}

/// The place of the first gadget with a name, or the number of gadgets.
pub open spec fn typed_gadget_place(gadgets: Seq<TypedGadgetSpec>, name: Seq<char>) -> int
    decreases gadgets.len(),
{
    if gadgets.len() == 0 || gadgets[0].name@ == name {
        0
    } else {
        1 + typed_gadget_place(gadgets.drop_first(), name)
    }
}

impl Default for TypedGadgetLibrary {
    fn default() -> (r: Self)
        ensures
            r.gadgets@.len() == 0,
    {
        TypedGadgetLibrary::new()
    }
}

impl TypedGadgetLibrary {
    /// No gadgets.
    pub fn new() -> (r: Self)
        ensures
            r.gadgets@.len() == 0,
    {
        TypedGadgetLibrary { gadgets: Vec::new() }
    }

    /// With another gadget.
    pub fn with(self, spec: TypedGadgetSpec) -> (r: Self)
        ensures
            r.gadgets@ == self.gadgets@.push(spec),
    {
        let mut gadgets = self.gadgets;
        gadgets.push(spec);
        TypedGadgetLibrary { gadgets }
    }

    /// The first gadget with a name.
    pub fn get(&self, name: &str) -> (r: Option<&TypedGadgetSpec>)
        ensures
            match r {
                Some(g) => 0 <= typed_gadget_place(self.gadgets@, name@) < self.gadgets@.len() && *g
                    == self.gadgets@[typed_gadget_place(self.gadgets@, name@)],
                None => typed_gadget_place(self.gadgets@, name@) == self.gadgets@.len(),
            },
    {
        let ghost gs = self.gadgets@;
        let wanted: String = name.to_owned();
        let mut i: usize = 0;
        assert(gs.skip(0) =~= gs);
        while i < self.gadgets.len()
            invariant
                i <= self.gadgets.len(),
                gs == self.gadgets@,
                wanted@ == name@,
                typed_gadget_place(gs, name@) == i + typed_gadget_place(gs.skip(i as int), name@),
            decreases self.gadgets.len() - i,
        {
            assert(gs.skip(i as int)[0] == gs[i as int]);
            assert(gs.skip(i as int).drop_first() =~= gs.skip(i + 1));
            if self.gadgets[i].name == wanted {
                return Some(&self.gadgets[i]);
            }
            i += 1;
        }
        None
    }
}

// ---------------------------------------------------------------------------
// Validation
// ---------------------------------------------------------------------------

/// What is wrong with a typed gadget.
#[derive(PartialEq, Eq, Debug)]
#[allow(inconsistent_fields)]
pub enum TypedGadgetError {
    /// No port of data, or several.
    NotExactlyOneDataPort { gadget: String, found: usize },
    /// A statement in a body that does more than compute.
    UnsupportedBodyStmt { gadget: String, stmt: &'static str },
    /// The inputs of a body are not the words of the ports.
    BodyParamMismatch { gadget: String, reason: &'static str },
    /// The outputs of a body are not the words of the port of data.
    BodyOutputMismatch { gadget: String, reason: &'static str },
    /// A port of a type without bits.
    UnsupportedWidth { gadget: String, ty: IRTypeId },
}

/// What a [`TypedGadgetError`] denotes.
#[verifier::ext_equal]
#[allow(inconsistent_fields)]
pub enum TypedGadgetErrorView {
    NotExactlyOneDataPort { gadget: Seq<char>, found: usize },
    UnsupportedBodyStmt { gadget: Seq<char>, stmt: Seq<char> },
    BodyParamMismatch { gadget: Seq<char>, reason: Seq<char> },
    BodyOutputMismatch { gadget: Seq<char>, reason: Seq<char> },
    UnsupportedWidth { gadget: Seq<char>, ty: IRTypeId },
}

impl View for TypedGadgetError {
    type V = TypedGadgetErrorView;

    open spec fn view(&self) -> TypedGadgetErrorView {
        match *self {
            TypedGadgetError::NotExactlyOneDataPort { gadget, found } =>
            TypedGadgetErrorView::NotExactlyOneDataPort { gadget: gadget@, found },
            TypedGadgetError::UnsupportedBodyStmt { gadget, stmt } =>
            TypedGadgetErrorView::UnsupportedBodyStmt { gadget: gadget@, stmt: stmt@ },
            TypedGadgetError::BodyParamMismatch { gadget, reason } =>
            TypedGadgetErrorView::BodyParamMismatch { gadget: gadget@, reason: reason@ },
            TypedGadgetError::BodyOutputMismatch { gadget, reason } =>
            TypedGadgetErrorView::BodyOutputMismatch { gadget: gadget@, reason: reason@ },
            TypedGadgetError::UnsupportedWidth { gadget, ty } =>
            TypedGadgetErrorView::UnsupportedWidth { gadget: gadget@, ty },
        }
    }
}

/// What a statement does beside computing, if it does.
pub open spec fn impurity(s: StmtView) -> Option<Seq<char>> {
    match s {
        StmtView::StorageRead { .. } => Some("StorageRead"@),
        StmtView::StorageWrite { .. } => Some("StorageWrite"@),
        StmtView::OracleCall { .. } => Some("Oracle"@),
        StmtView::OracleOutput { .. } => Some("Oracle"@),
        StmtView::ActionCall { .. } => Some("Action"@),
        StmtView::ActionOutput { .. } => Some("Action"@),
        StmtView::ActionStore { .. } => Some("Action"@),
        StmtView::Rng { .. } => Some("Rng"@),
        _ => None,
    }
}

/// What the first statement that does more than compute does.
pub open spec fn first_impurity(s: Seq<StmtView>) -> Option<Seq<char>>
    decreases s.len(),
{
    if s.len() == 0 {
        None
    } else {
        match impurity(s[0]) {
            Some(t) => Some(t),
            None => first_impurity(s.drop_first()),
        }
    }
}

/// The type of a variable of a body, if it has one.
pub open spec fn body_var_type(params: Seq<IRTypeId>, stmts: Seq<StmtView>, v: IRVarId) -> Option<
    IRTypeId,
> {
    if v.0 < params.len() {
        Some(params[v.0 as int])
    } else if v.0 < params.len() + stmts.len() {
        output_type(stmts[v.0 - params.len()])
    } else {
        None
    }
}

/// What is wrong with a body, for a port of data of `count` words of type `ty`.
pub open spec fn body_error(
    gadget: Seq<char>,
    params: Seq<IRTypeId>,
    stmts: Seq<StmtView>,
    outputs: Seq<IRVarId>,
    words: Seq<IRTypeId>,
    ty: IRTypeId,
    count: usize,
) -> Option<TypedGadgetErrorView> {
    match first_impurity(stmts) {
        Some(stmt) => Some(TypedGadgetErrorView::UnsupportedBodyStmt { gadget, stmt }),
        None => if params != words {
            Some(
                TypedGadgetErrorView::BodyParamMismatch {
                    gadget,
                    reason: "body params must equal the flattened port words in declaration order"@,
                },
            )
        } else if outputs.len() != count {
            Some(
                TypedGadgetErrorView::BodyOutputMismatch {
                    gadget,
                    reason: "body must output exactly one var per Data port word"@,
                },
            )
        } else if exists|i: int|
            0 <= i < outputs.len() && body_var_type(params, stmts, #[trigger] outputs[i]) != Some(
                ty,
            ) {
            Some(
                TypedGadgetErrorView::BodyOutputMismatch {
                    gadget,
                    reason: "output var missing or of the wrong type"@,
                },
            )
        } else {
            None
        },
    }
}

/// The type of the first port, from `from` on, whose type has no bits.
pub open spec fn widthless_port(
    table: Seq<IrTypeView>,
    ports: Seq<TypedPortView>,
    from: int,
) -> Option<IRTypeId>
    decreases ports.len() - from,
{
    if from >= ports.len() {
        None
    } else if bit_width(table, ports[from].ty) is None {
        Some(ports[from].ty)
    } else {
        widthless_port(table, ports, from + 1)
    }
}

/// Whether the types of the ports have a layout, as far as they have bits.
pub open spec fn ports_have_layout(
    table: Seq<IrTypeView>,
    ports: Seq<TypedPortView>,
    from: int,
) -> bool
    decreases ports.len() - from,
{
    if from >= ports.len() {
        true
    } else {
        &&& has_layout(table, ports[from].ty)
        &&& bit_width(table, ports[from].ty) is Some ==> ports_have_layout(table, ports, from + 1)
    }
}

/// What is wrong with a typed gadget.
pub open spec fn gadget_error(spec: TypedGadgetSpec, table: Seq<IrTypeView>) -> Option<
    TypedGadgetErrorView,
> {
    let ports = typed_port_views(spec.ports@);
    let gadget = spec.name@;
    if data_ports(ports) != 1 {
        Some(
            TypedGadgetErrorView::NotExactlyOneDataPort {
                gadget,
                found: data_ports(ports) as usize,
            },
        )
    } else {
        match widthless_port(table, ports, 0) {
            Some(ty) => Some(TypedGadgetErrorView::UnsupportedWidth { gadget, ty }),
            None => {
                let data = ports[data_place(ports)];
                let words = word_types(ports);
                match body_error(
                    gadget,
                    spec.encrypt.params@,
                    node_kinds(spec.encrypt.stmts@),
                    spec.encrypt.outputs@,
                    words,
                    data.ty,
                    data.count,
                ) {
                    Some(e) => Some(e),
                    None => match spec.decrypt {
                        Some(d) => body_error(
                            gadget,
                            d.params@,
                            node_kinds(d.stmts@),
                            d.outputs@,
                            words,
                            data.ty,
                            data.count,
                        ),
                        None => None,
                    },
                }
            },
        }
    }
}

/// What a statement does beside computing, if it does.
fn is_pure_typed_stmt(stmt: &IRStmt) -> (r: Option<&'static str>)
    ensures
        match r {
            Some(t) => impurity(stmt@) == Some(t@),
            None => impurity(stmt@) is None,
        },
{
    match stmt {
        IRStmt::StorageRead { .. } => Some("StorageRead"),
        IRStmt::StorageWrite { .. } => Some("StorageWrite"),
        IRStmt::OracleCall { .. } => Some("Oracle"),
        IRStmt::OracleOutput { .. } => Some("Oracle"),
        IRStmt::ActionCall { .. } => Some("Action"),
        IRStmt::ActionOutput { .. } => Some("Action"),
        IRStmt::ActionStore { .. } => Some("Action"),
        IRStmt::Rng { .. } => Some("Rng"),
        _ => None,
    }
}

fn find_impurity(stmts: &Vec<Node<IRStmt, ()>>) -> (r: Option<&'static str>)
    ensures
        match r {
            Some(t) => first_impurity(node_kinds(stmts@)) == Some(t@),
            None => first_impurity(node_kinds(stmts@)) is None,
        },
{
    let ghost s = node_kinds(stmts@);
    let mut i: usize = 0;
    assert(s.skip(0) =~= s);
    while i < stmts.len()
        invariant
            i <= stmts.len(),
            s == node_kinds(stmts@),
            first_impurity(s) == first_impurity(s.skip(i as int)),
        decreases stmts.len() - i,
    {
        assert(s.skip(i as int)[0] == stmts@[i as int].kind@);
        assert(s.skip(i as int).drop_first() =~= s.skip(i + 1));
        match is_pure_typed_stmt(&stmts[i].kind) {
            Some(t) => {
                return Some(t);
            },
            None => {},
        }
        i += 1;
    }
    None
}

/// Check a body, for a port of data of `count` words of type `ty`.
fn check_body(name: &String, body: &VCircuit, words: &Vec<IRTypeId>, ty: IRTypeId, count: usize) -> (r:
    Result<(), TypedGadgetError>)
    ensures
        ({
            let wrong = body_error(
                name@,
                body.params@,
                node_kinds(body.stmts@),
                body.outputs@,
                words@,
                ty,
                count,
            );
            match r {
                Ok(_) => wrong is None,
                Err(e) => wrong == Some(e@),
            }
        }),
{
    match find_impurity(&body.stmts) {
        Some(stmt) => {
            return Err(TypedGadgetError::UnsupportedBodyStmt { gadget: name.clone(), stmt });
        },
        None => {},
    }
    if !type_ids_eq(&body.params, words) {
        return Err(
            TypedGadgetError::BodyParamMismatch {
                gadget: name.clone(),
                reason: "body params must equal the flattened port words in declaration order",
            },
        );
    }
    if body.outputs.len() != count {
        return Err(
            TypedGadgetError::BodyOutputMismatch {
                gadget: name.clone(),
                reason: "body must output exactly one var per Data port word",
            },
        );
    }
    let ghost stmts = node_kinds(body.stmts@);
    let mut i: usize = 0;
    while i < body.outputs.len()
        invariant
            i <= body.outputs.len(),
            stmts == node_kinds(body.stmts@),
            first_impurity(stmts) is None,
            body.params@ == words@,
            body.outputs@.len() == count,
            forall|k: int|
                0 <= k < i ==> body_var_type(body.params@, stmts, #[trigger] body.outputs@[k])
                    == Some(ty),
        decreases body.outputs.len() - i,
    {
        let v: usize = body.outputs[i].0 as usize;
        let found: Option<IRTypeId> = if v < body.params.len() {
            Some(body.params[v])
        } else if v - body.params.len() < body.stmts.len() {
            let j: usize = v - body.params.len();
            assert(stmts[j as int] == body.stmts@[j as int].kind@);
            stmt_output_type(&body.stmts[j].kind)
        } else {
            None
        };
        assert(found == body_var_type(body.params@, stmts, body.outputs@[i as int]));
        let same: bool = match found {
            Some(t) => t == ty,
            None => false,
        };
        if !same {
            return Err(
                TypedGadgetError::BodyOutputMismatch {
                    gadget: name.clone(),
                    reason: "output var missing or of the wrong type",
                },
            );
        }
        i += 1;
    }
    Ok(())
}

/// Check the ports and the bodies of a typed gadget.
pub fn validate_typed_gadget(spec: &TypedGadgetSpec, types: &IRTypes) -> (r: Result<
    (),
    TypedGadgetError,
>)
    requires
        data_ports(typed_port_views(spec.ports@)) == 1 ==> ports_have_layout(
            types@,
            typed_port_views(spec.ports@),
            0,
        ),
    ensures
        match r {
            Ok(_) => gadget_error(*spec, types@) is None,
            Err(e) => gadget_error(*spec, types@) == Some(e@),
        },
{
    let ghost pv = typed_port_views(spec.ports@);
    let mut found: usize = 0;
    let mut i: usize = 0;
    assert(pv.take(0) =~= Seq::empty());
    while i < spec.ports.len()
        invariant
            i <= spec.ports.len(),
            found <= i,
            pv == typed_port_views(spec.ports@),
            found == data_ports(pv.take(i as int)),
        decreases spec.ports.len() - i,
    {
        proof {
            assert(pv.take(i + 1).drop_last() =~= pv.take(i as int));
            assert(pv.take(i + 1).last() == spec.ports@[i as int]@);
        }
        if spec.ports[i].kind == PortKind::Data {
            found += 1;
        }
        i += 1;
    }
    assert(pv.take(i as int) =~= pv);
    if found != 1 {
        return Err(
            TypedGadgetError::NotExactlyOneDataPort { gadget: spec.name.clone(), found },
        );
    }
    let mut k: usize = 0;
    while k < spec.ports.len()
        invariant
            k <= spec.ports.len(),
            pv == typed_port_views(spec.ports@),
            data_ports(pv) == 1,
            ports_have_layout(types@, pv, k as int),
            widthless_port(types@, pv, 0) == widthless_port(types@, pv, k as int),
        decreases spec.ports.len() - k,
    {
        assert(pv[k as int] == spec.ports@[k as int]@);
        let ty: IRTypeId = spec.ports[k].ty;
        if typed_bit_width(ty, types).is_none() {
            return Err(TypedGadgetError::UnsupportedWidth { gadget: spec.name.clone(), ty });
        }
        k += 1;
    }
    let words = spec.port_word_types();
    proof {
        lemma_data_place(pv);
    }
    match spec.data_port() {
        Some(data) => {
            assert(pv[data_place(pv)] == data@);
            match check_body(&spec.name, &spec.encrypt, &words, data.ty, data.count) {
                Ok(_) => {},
                Err(e) => {
                    return Err(e);
                },
            }
            match &spec.decrypt {
                Some(d) => check_body(&spec.name, d, &words, data.ty, data.count),
                None => Ok(()),
            }
        },
        None => Ok(()),
    }
}

} // verus!
