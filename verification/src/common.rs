//! Identifiers, types, constants and declarations shared by every IR level.

use vstd::prelude::*;

verus! {

/// A storage space.
#[derive(Clone, Copy, PartialEq, Eq, PartialOrd, Ord, Hash, Debug, Structural)]
pub struct StorageId(pub u32);

/// Storage space that holds the bytecode table unless a configuration names
/// another one.
pub const VIRT_BYTECODE: u32 = 0x4000_0000;

/// An index into a [`TypeTable`].
#[derive(Clone, Copy, PartialEq, Eq, PartialOrd, Ord, Hash, Debug, Structural)]
pub struct TypeId(pub u32);

/// The actor, party or role that a statement belongs to.
#[derive(Clone, Copy, PartialEq, Eq, PartialOrd, Ord, Hash, Debug, Structural)]
pub struct SideId(pub u32);

/// A 256-bit constant, split into two halves.
#[derive(Clone, Copy, PartialEq, Eq, PartialOrd, Ord, Hash, Debug, Structural)]
pub struct Constant {
    pub hi: u128,
    pub lo: u128,
}

impl Constant {
    /// The order of constants: by the high half, then by the low half.
    pub open spec fn less(self, other: Constant) -> bool {
        self.hi < other.hi || (self.hi == other.hi && self.lo < other.lo)
    }

    /// Whether `self` comes before `other`.
    pub fn is_less(&self, other: &Constant) -> (r: bool)
        ensures
            r == self.less(*other),
    {
        self.hi < other.hi || (self.hi == other.hi && self.lo < other.lo)
    }
}

/// Bit `k` of a number.
pub open spec fn nth_bit(i: nat, k: nat) -> bool
    decreases k,
{
    if k == 0 {
        i % 2 == 1
    } else {
        nth_bit(i / 2, (k - 1) as nat)
    }
}

proof fn lemma_shifted_bit(x: u128, k: u128)
    requires
        k < 128,
    ensures
        nth_bit(x as nat, k as nat) == ((x >> k) & 1 == 1),
    decreases k,
{
    if k == 0 {
        assert(((x >> 0) & 1 == 1) == (x % 2 == 1)) by (bit_vector);
    } else {
        let h: u128 = x / 2;
        let j: u128 = (k - 1) as u128;
        lemma_shifted_bit(h, j);
        assert(x >> k == h >> j) by (bit_vector)
            requires
                k < 128,
                k > 0,
                h == x / 2,
                j == k - 1,
        ;
    }
}

/// Bit `bit` of a constant, the least significant first.
pub open spec fn constant_nth_bit(c: Constant, bit: nat) -> bool {
    if bit < 128 {
        nth_bit(c.lo as nat, bit)
    } else {
        nth_bit(c.hi as nat, (bit - 128) as nat)
    }
}

/// Bit `bit` of a constant, the least significant first.
pub fn constant_bit(c: &Constant, bit: usize) -> (r: bool)
    requires
        bit < 256,
    ensures
        r == constant_nth_bit(*c, bit as nat),
{
    if bit < 128 {
        proof {
            lemma_shifted_bit(c.lo, bit as u128);
        }
        (c.lo >> (bit as u128)) & 1 == 1
    } else {
        proof {
            lemma_shifted_bit(c.hi, (bit - 128) as u128);
        }
        (c.hi >> ((bit - 128) as u128)) & 1 == 1
    }
}

/// Primitive types.
#[derive(Clone, Copy, PartialEq, Eq, PartialOrd, Ord, Hash, Debug, Structural)]
pub enum Type {
    Bit,
    _8,
    _16,
    _32,
    _64,
    _128,
    _256,
    AES8,
    Galois64,
    Z3,
}

/// A type of the IR. Component types are indices into the [`TypeTable`].
#[derive(PartialEq, Eq, PartialOrd, Ord, Hash, Debug)]
pub enum IrType {
    Primitive(Type),
    Vec(usize, TypeId),
    Tuple(Vec<TypeId>),
    Block { params: Vec<TypeId> },
    Func { params: Vec<TypeId>, results: Vec<TypeId> },
}

/// What an [`IrType`] denotes.
#[verifier::ext_equal]
pub enum IrTypeView {
    Primitive(Type),
    Vec(usize, TypeId),
    Tuple(Seq<TypeId>),
    Block { params: Seq<TypeId> },
    Func { params: Seq<TypeId>, results: Seq<TypeId> },
}

impl View for IrType {
    type V = IrTypeView;

    open spec fn view(&self) -> IrTypeView {
        match *self {
            IrType::Primitive(p) => IrTypeView::Primitive(p),
            IrType::Vec(n, t) => IrTypeView::Vec(n, t),
            IrType::Tuple(ts) => IrTypeView::Tuple(ts@),
            IrType::Block { params } => IrTypeView::Block { params: params@ },
            IrType::Func { params, results } => IrTypeView::Func {
                params: params@,
                results: results@,
            },
        }
    }
}

/// Whether two type lists are equal, element by element.
pub fn type_ids_eq(a: &Vec<TypeId>, b: &Vec<TypeId>) -> (r: bool)
    ensures
        r == (a@ == b@),
{
    if a.len() != b.len() {
        return false;
    }
    let mut i: usize = 0;
    while i < a.len()
        invariant
            i <= a.len(),
            a.len() == b.len(),
            a@.take(i as int) == b@.take(i as int),
        decreases a.len() - i,
    {
        if a[i] != b[i] {
            assert(a@[i as int] != b@[i as int]);
            return false;
        }
        proof {
            assert(a@.take(i + 1) == a@.take(i as int).push(a@[i as int]));
            assert(b@.take(i + 1) == b@.take(i as int).push(b@[i as int]));
        }
        i += 1;
    }
    assert(a@ == a@.take(i as int));
    assert(b@ == b@.take(i as int));
    true
}

impl Clone for IrType {
    fn clone(&self) -> (r: Self)
        ensures
            r@ == self@,
    {
        match self {
            IrType::Primitive(p) => IrType::Primitive(*p),
            IrType::Vec(n, t) => IrType::Vec(*n, *t),
            IrType::Tuple(ts) => IrType::Tuple(ts.clone()),
            IrType::Block { params } => IrType::Block { params: params.clone() },
            IrType::Func { params, results } => IrType::Func {
                params: params.clone(),
                results: results.clone(),
            },
        }
    }
}

impl IrType {
    /// Whether two types are the same.
    pub fn same(&self, other: &IrType) -> (r: bool)
        ensures
            r == (self@ == other@),
    {
        match (self, other) {
            (IrType::Primitive(a), IrType::Primitive(b)) => *a == *b,
            (IrType::Vec(n, a), IrType::Vec(m, b)) => *n == *m && *a == *b,
            (IrType::Tuple(a), IrType::Tuple(b)) => type_ids_eq(a, b),
            (IrType::Block { params: a }, IrType::Block { params: b }) => type_ids_eq(a, b),
            (
                IrType::Func { params: a, results: c },
                IrType::Func { params: b, results: d },
            ) => type_ids_eq(a, b) && type_ids_eq(c, d),
            _ => false,
        }
    }
}

/// The views of a list of types.
pub open spec fn type_views(s: Seq<IrType>) -> Seq<IrTypeView> {
    s.map_values(|t: IrType| t@)
}

/// The types of a module, each known by its index.
#[derive(PartialEq, Eq, Hash, Debug)]
pub struct TypeTable(pub Vec<IrType>);

impl View for TypeTable {
    type V = Seq<IrTypeView>;

    open spec fn view(&self) -> Seq<IrTypeView> {
        type_views(self.0@)
    }
}

/// The table after interning `ty`.
pub open spec fn interned(table: Seq<IrTypeView>, ty: IrTypeView) -> Seq<IrTypeView> {
    if table.contains(ty) {
        table
    } else {
        table.push(ty)
    }
}

/// The index that interning `ty` yields: that of its first occurrence, or the
/// next free one.
pub open spec fn interned_index(table: Seq<IrTypeView>, ty: IrTypeView) -> int {
    if table.contains(ty) {
        table.index_of_first(ty).unwrap()
    } else {
        table.len() as int
    }
}

impl TypeTable {
    /// An empty table.
    pub fn new() -> (r: Self)
        ensures
            r@ == Seq::<IrTypeView>::empty(),
    {
        TypeTable(Vec::new())
    }

    /// The index of `ty`, which is added to the table if it is not there yet.
    pub fn intern(&mut self, ty: IrType) -> (id: TypeId)
        requires
            old(self)@.len() < u32::MAX,
        ensures
            final(self)@ == interned(old(self)@, ty@),
            id.0 == interned_index(old(self)@, ty@),
            final(self)@[id.0 as int] == ty@,
            id.0 < final(self)@.len(),
    {
        let mut i: usize = 0;
        while i < self.0.len()
            invariant
                i <= self.0.len(),
                self@.len() < u32::MAX,
                self == old(self),
                forall|j: int| 0 <= j < i ==> self@[j] != ty@,
            decreases self.0.len() - i,
        {
            if self.0[i].same(&ty) {
                proof {
                    assert(self@[i as int] == ty@);
                    assert(self@.contains(ty@));
                    self@.index_of_first_ensures(ty@);
                }
                return TypeId(i as u32);
            }
            assert(self@[i as int] != ty@);
            i += 1;
        }
        let ghost before = self@;
        self.0.push(ty);
        proof {
            assert(self@ =~= before.push(ty@));
            assert(!before.contains(ty@));
        }
        TypeId(i as u32)
    }
}

/// A statement kind together with its annotations: where it came from and,
/// optionally, which side it belongs to.
#[derive(PartialEq, Eq, PartialOrd, Ord, Hash, Debug)]
pub struct Node<K, P> {
    pub kind: K,
    pub prov: P,
    pub side: Option<SideId>,
}

impl<K, P> Node<K, P> {
    /// A node from its parts.
    pub fn new(kind: K, prov: P, side: Option<SideId>) -> (r: Self)
        ensures
            r.kind == kind,
            r.prov == prov,
            r.side == side,
    {
        Node { kind, prov, side }
    }
}

/// Translates provenance annotations.
pub trait ProvenanceHandler<P> {
    type Output: Clone;

    /// The translation of `p`.
    fn map(&self, p: &P) -> Self::Output;
}

/// Whether `to` is `from` with its provenance translated by `handler` and
/// nothing else changed.
pub open spec fn prov_mapped<K, P, H: ProvenanceHandler<P>>(
    handler: &H,
    from: Node<K, P>,
    to: Node<K, H::Output>,
) -> bool {
    &&& to.kind == from.kind
    &&& to.side == from.side
    &&& call_ensures(H::map, (handler, &from.prov), to.prov)
}

impl<K, P> Node<K, P> {
    /// The node with its provenance translated by `handler`.
    pub fn map_prov<H: ProvenanceHandler<P>>(self, handler: &H) -> (r: Node<K, H::Output>)
        requires
            call_requires(H::map, (handler, &self.prov)),
        ensures
            prov_mapped(handler, self, r),
    {
        let prov = handler.map(&self.prov);
        Node { kind: self.kind, prov, side: self.side }
    }
}

/// A list from its last item to its first.
pub(crate) fn turned<T>(list: Vec<T>) -> (r: Vec<T>)
    ensures
        r@.len() == list@.len(),
        forall|i: int| 0 <= i < r@.len() ==> #[trigger] r@[i] == list@[list@.len() - 1 - i],
{
    let ghost all = list@;
    let mut rest = list;
    let mut out: Vec<T> = Vec::new();
    while rest.len() > 0
        invariant
            rest@.len() + out@.len() == all.len(),
            rest@ == all.take(rest@.len() as int),
            forall|i: int| 0 <= i < out@.len() ==> #[trigger] out@[i] == all[all.len() - 1 - i],
        decreases rest@.len(),
    {
        let ghost n = rest@.len();
        assert(rest@[n - 1] == all[n - 1]);
        let item = rest.pop().unwrap();
        assert(item == all[n - 1]);
        out.push(item);
        assert(rest@ =~= all.take(rest@.len() as int));
    }
    out
}

/// The nodes of a list with their provenance translated. The handler is asked
/// for one node after the other, from the first to the last.
pub fn map_prov_nodes<K, P, H: ProvenanceHandler<P>>(
    nodes: Vec<Node<K, P>>,
    handler: &H,
) -> (r: Vec<Node<K, H::Output>>)
    requires
        forall|i: int|
            0 <= i < nodes@.len() ==> call_requires(
                H::map,
                (handler, &(#[trigger] nodes@[i]).prov),
            ),
    ensures
        r@.len() == nodes@.len(),
        forall|i: int|
            0 <= i < r@.len() ==> prov_mapped(handler, nodes@[i], #[trigger] r@[i]),
{
    let ghost all = nodes@;
    let mut turned = turned(nodes);
    let mut out: Vec<Node<K, H::Output>> = Vec::new();
    while turned.len() > 0
        invariant
            turned@.len() + out@.len() == all.len(),
            forall|i: int|
                0 <= i < turned@.len() ==> #[trigger] turned@[i] == all[all.len() - 1 - i],
            forall|i: int|
                0 <= i < all.len() ==> call_requires(
                    H::map,
                    (handler, &(#[trigger] all[i]).prov),
                ),
            forall|i: int|
                0 <= i < out@.len() ==> prov_mapped(handler, all[i], #[trigger] out@[i]),
        decreases turned@.len(),
    {
        let ghost n = turned@.len();
        assert(turned@[n - 1] == all[out@.len() as int]);
        let node = turned.pop().unwrap();
        assert(node == all[out@.len() as int]);
        out.push(node.map_prov(handler));
    }
    out
}

/// Declaration of a pure function supplied by the environment.
#[derive(PartialEq, Eq, PartialOrd, Ord, Hash, Debug)]
pub struct OracleDecl {
    pub name: String,
    pub params: Vec<TypeId>,
    pub results: Vec<TypeId>,
}

/// Declaration of an effectful function supplied by the environment.
#[derive(PartialEq, Eq, PartialOrd, Ord, Hash, Debug)]
pub struct ActionDecl {
    pub name: String,
    pub params: Vec<TypeId>,
    pub results: Vec<TypeId>,
}

/// Declaration of a random source supplied by the environment.
#[derive(PartialEq, Eq, PartialOrd, Ord, Hash, Debug)]
pub struct RngDecl {
    pub name: String,
    pub ty: TypeId,
}

/// What an oracle or action declaration denotes.
#[verifier::ext_equal]
pub struct CallDeclView {
    pub name: Seq<char>,
    pub params: Seq<TypeId>,
    pub results: Seq<TypeId>,
}

/// What a random-source declaration denotes.
#[verifier::ext_equal]
pub struct RngDeclView {
    pub name: Seq<char>,
    pub ty: TypeId,
}

impl View for OracleDecl {
    type V = CallDeclView;

    open spec fn view(&self) -> CallDeclView {
        CallDeclView { name: self.name@, params: self.params@, results: self.results@ }
    }
}

impl View for ActionDecl {
    type V = CallDeclView;

    open spec fn view(&self) -> CallDeclView {
        CallDeclView { name: self.name@, params: self.params@, results: self.results@ }
    }
}

impl View for RngDecl {
    type V = RngDeclView;

    open spec fn view(&self) -> RngDeclView {
        RngDeclView { name: self.name@, ty: self.ty }
    }
}

impl Clone for OracleDecl {
    fn clone(&self) -> (r: Self)
        ensures
            r@ == self@,
    {
        OracleDecl {
            name: self.name.clone(),
            params: self.params.clone(),
            results: self.results.clone(),
        }
    }
}

impl Clone for ActionDecl {
    fn clone(&self) -> (r: Self)
        ensures
            r@ == self@,
    {
        ActionDecl {
            name: self.name.clone(),
            params: self.params.clone(),
            results: self.results.clone(),
        }
    }
}

impl Clone for RngDecl {
    fn clone(&self) -> (r: Self)
        ensures
            r@ == self@,
    {
        RngDecl { name: self.name.clone(), ty: self.ty }
    }
}

/// The views of a list of oracle declarations.
pub open spec fn oracle_views(s: Seq<OracleDecl>) -> Seq<CallDeclView> {
    s.map_values(|d: OracleDecl| d@)
}

/// The views of a list of action declarations.
pub open spec fn action_views(s: Seq<ActionDecl>) -> Seq<CallDeclView> {
    s.map_values(|d: ActionDecl| d@)
}

/// The views of a list of random-source declarations.
pub open spec fn rng_views(s: Seq<RngDecl>) -> Seq<RngDeclView> {
    s.map_values(|d: RngDecl| d@)
}

/// A copy of a list of oracle declarations.
pub fn clone_oracles(s: &Vec<OracleDecl>) -> (r: Vec<OracleDecl>)
    ensures
        oracle_views(r@) == oracle_views(s@),
{
    let mut out: Vec<OracleDecl> = Vec::new();
    let mut i: usize = 0;
    while i < s.len()
        invariant
            i <= s.len(),
            out@.len() == i,
            forall|j: int| 0 <= j < i ==> (#[trigger] out@[j])@ == s@[j]@,
        decreases s.len() - i,
    {
        out.push(s[i].clone());
        i += 1;
    }
    assert(oracle_views(out@) =~= oracle_views(s@));
    out
}

/// A copy of a list of action declarations.
pub fn clone_actions(s: &Vec<ActionDecl>) -> (r: Vec<ActionDecl>)
    ensures
        action_views(r@) == action_views(s@),
{
    let mut out: Vec<ActionDecl> = Vec::new();
    let mut i: usize = 0;
    while i < s.len()
        invariant
            i <= s.len(),
            out@.len() == i,
            forall|j: int| 0 <= j < i ==> (#[trigger] out@[j])@ == s@[j]@,
        decreases s.len() - i,
    {
        out.push(s[i].clone());
        i += 1;
    }
    assert(action_views(out@) =~= action_views(s@));
    out
}

/// A copy of a list of random-source declarations.
pub fn clone_rngs(s: &Vec<RngDecl>) -> (r: Vec<RngDecl>)
    ensures
        rng_views(r@) == rng_views(s@),
{
    let mut out: Vec<RngDecl> = Vec::new();
    let mut i: usize = 0;
    while i < s.len()
        invariant
            i <= s.len(),
            out@.len() == i,
            forall|j: int| 0 <= j < i ==> (#[trigger] out@[j])@ == s@[j]@,
        decreases s.len() - i,
    {
        out.push(s[i].clone());
        i += 1;
    }
    assert(rng_views(out@) =~= rng_views(s@));
    out
}

/// A run of storage cells of one type with known initial contents.
#[derive(PartialEq, Eq, PartialOrd, Ord, Hash, Debug)]
pub struct PreInitSegment {
    pub storage: StorageId,
    pub ty: TypeId,
    pub offset: usize,
    pub data: Vec<Constant>,
}

/// What a [`PreInitSegment`] denotes.
#[verifier::ext_equal]
pub struct PreInitView {
    pub storage: StorageId,
    pub ty: TypeId,
    pub offset: usize,
    pub data: Seq<Constant>,
}

impl View for PreInitSegment {
    type V = PreInitView;

    open spec fn view(&self) -> PreInitView {
        PreInitView {
            storage: self.storage,
            ty: self.ty,
            offset: self.offset,
            data: self.data@,
        }
    }
}

impl Clone for PreInitSegment {
    fn clone(&self) -> (r: Self)
        ensures
            r@ == self@,
    {
        PreInitSegment {
            storage: self.storage,
            ty: self.ty,
            offset: self.offset,
            data: self.data.clone(),
        }
    }
}

/// The views of a list of segments.
pub open spec fn pre_init_views(s: Seq<PreInitSegment>) -> Seq<PreInitView> {
    s.map_values(|d: PreInitSegment| d@)
}

/// Whether a storage space may be written.
#[derive(Clone, Copy, PartialEq, Eq, PartialOrd, Ord, Hash, Debug, Structural)]
pub enum StorageAccess {
    ReadOnly,
    ReadWrite,
}

/// A declared access.
#[derive(Clone, Copy, PartialEq, Eq, PartialOrd, Ord, Hash, Debug, Structural)]
pub struct StorageEntry {
    pub storage: StorageId,
    pub access: StorageAccess,
}

/// Declared accesses of storage spaces. A space without a declaration may be
/// read and written.
#[derive(PartialEq, Eq, Hash, Debug)]
pub struct StorageTable {
    pub entries: Vec<StorageEntry>,
}

/// The access declared for `storage` in a list of entries.
pub open spec fn declared_access(entries: Seq<StorageEntry>, storage: StorageId) -> Option<
    StorageAccess,
>
    decreases entries.len(),
{
    if entries.len() == 0 {
        None
    } else if entries[0].storage == storage {
        Some(entries[0].access)
    } else {
        declared_access(entries.drop_first(), storage)
    }
}

/// Entries of other storages do not decide a declared access.
pub proof fn lemma_declared_access_skip(entries: Seq<StorageEntry>, storage: StorageId, i: int)
    requires
        0 <= i <= entries.len(),
        forall|j: int| 0 <= j < i ==> (#[trigger] entries[j]).storage != storage,
    ensures
        declared_access(entries, storage) == declared_access(entries.skip(i), storage),
    decreases i,
{
    if i == 0 {
        assert(entries.skip(0) == entries);
    } else {
        let t = entries.drop_first();
        assert forall|j: int| 0 <= j < i - 1 implies (#[trigger] t[j]).storage != storage by {
            assert(t[j] == entries[j + 1]);
        }
        lemma_declared_access_skip(t, storage, i - 1);
        assert(t.skip(i - 1) == entries.skip(i));
    }
}

/// What replacing one entry, the first for its storage, does to a lookup.
proof fn lemma_declared_access_update(
    entries: Seq<StorageEntry>,
    i: int,
    access: StorageAccess,
    q: StorageId,
)
    requires
        0 <= i < entries.len(),
        forall|j: int| 0 <= j < i ==> (#[trigger] entries[j]).storage != entries[i].storage,
    ensures
        declared_access(
            entries.update(i, StorageEntry { storage: entries[i].storage, access }),
            q,
        ) == if q == entries[i].storage {
            Some(access)
        } else {
            declared_access(entries, q)
        },
    decreases i,
{
    let e = StorageEntry { storage: entries[i].storage, access };
    let r = entries.update(i, e);
    if i == 0 {
        assert(r.drop_first() == entries.drop_first());
    } else {
        let t = entries.drop_first();
        assert forall|j: int| 0 <= j < i - 1 implies (#[trigger] t[j]).storage
            != t[i - 1].storage by {
            assert(t[j] == entries[j + 1]);
        }
        lemma_declared_access_update(t, i - 1, access, q);
        assert(r.drop_first() == t.update(i - 1, e));
    }
}

/// What appending an entry for a storage that has none does to a lookup.
proof fn lemma_declared_access_push(entries: Seq<StorageEntry>, e: StorageEntry, q: StorageId)
    requires
        forall|j: int| 0 <= j < entries.len() ==> (#[trigger] entries[j]).storage != e.storage,
    ensures
        declared_access(entries.push(e), q) == if q == e.storage {
            Some(e.access)
        } else {
            declared_access(entries, q)
        },
    decreases entries.len(),
{
    let r = entries.push(e);
    if entries.len() == 0 {
        assert(r.drop_first() == entries);
    } else {
        let t = entries.drop_first();
        assert forall|j: int| 0 <= j < t.len() implies (#[trigger] t[j]).storage != e.storage by {
            assert(t[j] == entries[j + 1]);
        }
        lemma_declared_access_push(t, e, q);
        assert(r.drop_first() == t.push(e));
    }
}

impl StorageTable {
    /// The access declared for `storage`, if there is a declaration.
    pub open spec fn declared(&self, storage: StorageId) -> Option<StorageAccess> {
        declared_access(self.entries@, storage)
    }

    /// The access that holds for `storage`.
    pub open spec fn access(&self, storage: StorageId) -> StorageAccess {
        match self.declared(storage) {
            Some(a) => a,
            None => StorageAccess::ReadWrite,
        }
    }

    /// A table without declarations.
    pub fn new() -> (r: Self)
        ensures
            r.entries@ == Seq::<StorageEntry>::empty(),
    {
        StorageTable { entries: Vec::new() }
    }

    /// Declare `access` for `storage`, replacing an earlier declaration.
    pub fn set(&mut self, storage: StorageId, access: StorageAccess)
        ensures
            forall|q: StorageId| #[trigger]
                final(self).declared(q) == if q == storage {
                    Some(access)
                } else {
                    old(self).declared(q)
                },
    {
        let mut i: usize = 0;
        while i < self.entries.len()
            invariant
                i <= self.entries.len(),
                self == old(self),
                forall|j: int| 0 <= j < i ==> (#[trigger] self.entries@[j]).storage != storage,
            decreases self.entries.len() - i,
        {
            if self.entries[i].storage == storage {
                let ghost before = self.entries@;
                self.entries.set(i, StorageEntry { storage, access });
                assert forall|q: StorageId| #[trigger]
                    self.declared(q) == if q == storage {
                        Some(access)
                    } else {
                        old(self).declared(q)
                    } by {
                    lemma_declared_access_update(before, i as int, access, q);
                }
                return ;
            }
            i += 1;
        }
        let ghost before = self.entries@;
        self.entries.push(StorageEntry { storage, access });
        assert forall|q: StorageId| #[trigger]
            self.declared(q) == if q == storage {
                Some(access)
            } else {
                old(self).declared(q)
            } by {
            lemma_declared_access_push(before, StorageEntry { storage, access }, q);
        }
    }

    /// The declaration for `storage`, if there is one.
    pub fn declaration_of(&self, storage: StorageId) -> (r: Option<StorageAccess>)
        ensures
            r == self.declared(storage),
    {
        let mut i: usize = 0;
        while i < self.entries.len()
            invariant
                i <= self.entries.len(),
                forall|j: int| 0 <= j < i ==> (#[trigger] self.entries@[j]).storage != storage,
            decreases self.entries.len() - i,
        {
            if self.entries[i].storage == storage {
                proof {
                    lemma_declared_access_skip(self.entries@, storage, i as int);
                }
                return Some(self.entries[i].access);
            }
            i += 1;
        }
        proof {
            lemma_declared_access_skip(self.entries@, storage, i as int);
        }
        None
    }

    /// The access that holds for `storage`: what is declared, or read-write.
    pub fn access_of(&self, storage: StorageId) -> (r: StorageAccess)
        ensures
            r == self.access(storage),
    {
        match self.declaration_of(storage) {
            Some(a) => a,
            None => StorageAccess::ReadWrite,
        }
    }
}

impl Default for StorageTable {
    fn default() -> (r: Self)
        ensures
            r.entries@ == Seq::<StorageEntry>::empty(),
    {
        StorageTable::new()
    }
}

impl Clone for StorageTable {
    fn clone(&self) -> (r: Self)
        ensures
            r.entries@ == self.entries@,
    {
        StorageTable { entries: self.entries.clone() }
    }
}

/// A quantity that a loop makes smaller on every round.
#[derive(PartialEq, Eq, PartialOrd, Ord, Hash, Debug)]
pub enum MeasureSpec {
    Strict { param: u32, signed: bool },
    Diff { minuend: Box<MeasureSpec>, subtrahend: Box<MeasureSpec>, signed: bool },
}

impl Clone for MeasureSpec {
    fn clone(&self) -> (r: Self)
        ensures
            r == *self,
        decreases self,
    {
        match self {
            MeasureSpec::Strict { param, signed } => MeasureSpec::Strict {
                param: *param,
                signed: *signed,
            },
            MeasureSpec::Diff { minuend, subtrahend, signed } => MeasureSpec::Diff {
                minuend: Box::new((&**minuend).clone()),
                subtrahend: Box::new((&**subtrahend).clone()),
                signed: *signed,
            },
        }
    }
}

impl MeasureSpec {
    /// Whether two measures are the same.
    pub fn same(&self, other: &MeasureSpec) -> (r: bool)
        ensures
            r == (*self == *other),
        decreases self,
    {
        match (self, other) {
            (
                MeasureSpec::Strict { param: a, signed: s },
                MeasureSpec::Strict { param: b, signed: t },
            ) => *a == *b && *s == *t,
            (
                MeasureSpec::Diff { minuend: a, subtrahend: c, signed: s },
                MeasureSpec::Diff { minuend: b, subtrahend: d, signed: t },
            ) => *s == *t && (&**a).same(&**b) && (&**c).same(&**d),
            _ => false,
        }
    }
}

/// Why re-entering a block terminates.
#[derive(PartialEq, Eq, PartialOrd, Ord, Hash, Debug)]
pub struct ReentryHint {
    pub measures: Vec<MeasureSpec>,
}

impl View for ReentryHint {
    type V = Seq<MeasureSpec>;

    open spec fn view(&self) -> Seq<MeasureSpec> {
        self.measures@
    }
}

impl Clone for ReentryHint {
    fn clone(&self) -> (r: Self)
        ensures
            r@ == self@,
    {
        let mut measures: Vec<MeasureSpec> = Vec::new();
        let mut i: usize = 0;
        while i < self.measures.len()
            invariant
                i <= self.measures.len(),
                measures@ == self.measures@.take(i as int),
            decreases self.measures.len() - i,
        {
            measures.push(self.measures[i].clone());
            assert(self.measures@.take(i + 1) == self.measures@.take(i as int).push(
                self.measures@[i as int],
            ));
            i += 1;
        }
        assert(self.measures@.take(i as int) == self.measures@);
        ReentryHint { measures }
    }
}

/// The measure of a loop that counts its first parameter up to its second.
pub open spec fn ascending_measure() -> MeasureSpec {
    MeasureSpec::Diff {
        minuend: Box::new(MeasureSpec::Strict { param: 1, signed: false }),
        subtrahend: Box::new(MeasureSpec::Strict { param: 0, signed: false }),
        signed: false,
    }
}

impl ReentryHint {
    /// The hint of a loop that counts its first parameter up to its second.
    pub fn bounded_loop_ascending() -> (r: Self)
        ensures
            r@ == seq![ascending_measure()],
    {
        let m = MeasureSpec::Diff {
            minuend: Box::new(MeasureSpec::Strict { param: 1, signed: false }),
            subtrahend: Box::new(MeasureSpec::Strict { param: 0, signed: false }),
            signed: false,
        };
        let mut measures: Vec<MeasureSpec> = Vec::new();
        measures.push(m);
        assert(measures@ =~= seq![ascending_measure()]);
        ReentryHint { measures }
    }

    /// Whether two hints are the same.
    pub fn same(&self, other: &ReentryHint) -> (r: bool)
        ensures
            r == (self@ == other@),
    {
        if self.measures.len() != other.measures.len() {
            return false;
        }
        let mut i: usize = 0;
        while i < self.measures.len()
            invariant
                i <= self.measures.len(),
                self.measures.len() == other.measures.len(),
                forall|j: int| 0 <= j < i ==> self.measures@[j] == other.measures@[j],
            decreases self.measures.len() - i,
        {
            if !self.measures[i].same(&other.measures[i]) {
                assert(self@[i as int] != other@[i as int]);
                return false;
            }
            i += 1;
        }
        assert(self@ =~= other@);
        true
    }
}

} // verus!
