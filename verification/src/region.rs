//! Named regions of the wires at the boundary of a circuit.
//!
//! A table assigns to groups of input bits, output bits and storage cells the
//! regions that they belong to. It stands beside the circuit.

use vstd::prelude::*;

use crate::boolar::{
    bir_node_kinds, bir_pre_init_views, BIrPreInitView, BIrStmt, BIrStmtView, LaneId,
};
use crate::circuit::BCircuit;
use crate::common::StorageId;
use crate::sorted::{assoc_get, assoc_insert, lemma_assoc_get_at, lemma_assoc_insert_at};

verus! {

/// A region.
#[derive(Clone, Copy, PartialEq, Eq, PartialOrd, Ord, Hash, Debug, Structural)]
pub struct RegionId(pub u32);

// ---------------------------------------------------------------------------
// Sets of regions
// ---------------------------------------------------------------------------

/// Whether a list of regions is in ascending order, each once.
pub open spec fn ascending(s: Seq<RegionId>) -> bool {
    forall|i: int, j: int| 0 <= i < j < s.len() ==> (#[trigger] s[i]).0 < (#[trigger] s[j]).0
}

/// The list with a region put in its place.
pub open spec fn with_region(s: Seq<RegionId>, r: RegionId) -> Seq<RegionId>
    decreases s.len(),
{
    if s.len() == 0 {
        seq![r]
    } else if r == s[0] {
        s
    } else if r.0 < s[0].0 {
        seq![r] + s
    } else {
        seq![s[0]] + with_region(s.drop_first(), r)
    }
}

/// The set of the regions of a list.
pub open spec fn region_set(s: Seq<RegionId>) -> Seq<RegionId>
    decreases s.len(),
{
    if s.len() == 0 {
        Seq::empty()
    } else {
        with_region(region_set(s.drop_last()), s.last())
    }
}

/// A set with another region holds it and what it held, and stays in order.
pub proof fn law_with_region(s: Seq<RegionId>, r: RegionId, q: RegionId)
    requires
        ascending(s),
    ensures
        ascending(with_region(s, r)),
        with_region(s, r).contains(q) <==> s.contains(q) || q == r,
    decreases s.len(),
{
    if s.len() == 0 {
        assert(seq![r][0] == r);
    } else if r == s[0] {
        assert(s[0] == r);
    } else if r.0 < s[0].0 {
        let t = seq![r] + s;
        assert(t[0] == r);
        if s.contains(q) {
            let i = choose|i: int| 0 <= i < s.len() && s[i] == q;
            assert(t[i + 1] == q);
        }
        assert forall|i: int, j: int| 0 <= i < j < t.len() implies (#[trigger] t[i]).0 < (
        #[trigger] t[j]).0 by {
            assert(t[j] == s[j - 1]);
            if i > 0 {
                assert(t[i] == s[i - 1]);
            } else if j > 1 {
                assert(s[0].0 < s[j - 1].0);
            }
        }
        if t.contains(q) {
            let i = choose|i: int| 0 <= i < t.len() && t[i] == q;
            if i > 0 {
                assert(s[i - 1] == q);
            }
        }
    } else {
        let rest = s.drop_first();
        assert forall|i: int, j: int| 0 <= i < j < rest.len() implies (#[trigger] rest[i]).0 < (
        #[trigger] rest[j]).0 by {
            assert(rest[i] == s[i + 1]);
            assert(rest[j] == s[j + 1]);
        }
        law_with_region(rest, r, q);
        let tail = with_region(rest, r);
        let t = seq![s[0]] + tail;
        assert forall|i: int, j: int| 0 <= i < j < t.len() implies (#[trigger] t[i]).0 < (
        #[trigger] t[j]).0 by {
            assert(t[j] == tail[j - 1]);
            if i > 0 {
                assert(t[i] == tail[i - 1]);
            } else {
                let x = tail[j - 1];
                law_with_region(rest, r, x);
                assert(tail.contains(x));
                if rest.contains(x) {
                    let k = choose|k: int| 0 <= k < rest.len() && rest[k] == x;
                    assert(s[k + 1] == x);
                    assert(s[0].0 < s[k + 1].0);
                }
            }
        }
        assert(t[0] == s[0]);
        if tail.contains(q) {
            let i = choose|i: int| 0 <= i < tail.len() && tail[i] == q;
            assert(t[i + 1] == q);
        }
        if rest.contains(q) {
            let i = choose|i: int| 0 <= i < rest.len() && rest[i] == q;
            assert(s[i + 1] == q);
        }
        if s.contains(q) {
            let i = choose|i: int| 0 <= i < s.len() && s[i] == q;
            if i > 0 {
                assert(rest[i - 1] == q);
            }
        }
        if t.contains(q) {
            let i = choose|i: int| 0 <= i < t.len() && t[i] == q;
            if i > 0 {
                assert(tail[i - 1] == q);
            }
        }
    }
}

/// The set of a list is in order and holds exactly what is in the list.
pub proof fn law_region_set(s: Seq<RegionId>, q: RegionId)
    ensures
        ascending(region_set(s)),
        region_set(s).contains(q) <==> s.contains(q),
    decreases s.len(),
{
    if s.len() > 0 {
        let rest = s.drop_last();
        law_region_set(rest, q);
        law_with_region(region_set(rest), s.last(), q);
        if s.contains(q) {
            let i = choose|i: int| 0 <= i < s.len() && s[i] == q;
            if i < s.len() - 1 {
                assert(rest[i] == q);
            }
        }
        if rest.contains(q) {
            let i = choose|i: int| 0 <= i < rest.len() && rest[i] == q;
            assert(s[i] == q);
        }
        assert(s[s.len() - 1] == s.last());
    }
}

proof fn lemma_with_last(s: Seq<RegionId>, r: RegionId)
    requires
        forall|i: int| 0 <= i < s.len() ==> (#[trigger] s[i]).0 < r.0,
    ensures
        with_region(s, r) == s.push(r),
    decreases s.len(),
{
    if s.len() > 0 {
        let t = s.drop_first();
        assert forall|i: int| 0 <= i < t.len() implies (#[trigger] t[i]).0 < r.0 by {
            assert(t[i] == s[i + 1]);
        }
        assert(s[0].0 < r.0);
        lemma_with_last(t, r);
        assert(seq![s[0]] + t.push(r) =~= s.push(r));
    } else {
        assert(seq![r] =~= s.push(r));
    }
}

/// A list in ascending order is the set of its regions.
pub proof fn law_ascending_set(s: Seq<RegionId>)
    requires
        ascending(s),
    ensures
        region_set(s) == s,
    decreases s.len(),
{
    if s.len() > 0 {
        let t = s.drop_last();
        assert(ascending(t)) by {
            assert forall|i: int, j: int| 0 <= i < j < t.len() implies (#[trigger] t[i]).0 < (
            #[trigger] t[j]).0 by {
                assert(s[i].0 < s[j].0);
            }
        }
        law_ascending_set(t);
        assert forall|i: int| 0 <= i < t.len() implies (#[trigger] t[i]).0 < s.last().0 by {
            assert(s[i].0 < s[s.len() - 1].0);
        }
        lemma_with_last(t, s.last());
        assert(t.push(s.last()) =~= s);
    }
}

/// A set of regions.
#[derive(PartialEq, Eq, PartialOrd, Ord, Hash, Debug)]
pub struct RegionSet {
    ids: Vec<RegionId>,
}

impl View for RegionSet {
    type V = Seq<RegionId>;

    closed spec fn view(&self) -> Seq<RegionId> {
        self.ids@
    }
}

impl Clone for RegionSet {
    fn clone(&self) -> (r: Self)
        ensures
            r@ == self@,
    {
        proof {
            use_type_invariant(self);
        }
        RegionSet { ids: self.ids.clone() }
    }
}

impl Default for RegionSet {
    fn default() -> (r: Self)
        ensures
            r@ == Seq::<RegionId>::empty(),
    {
        RegionSet::new()
    }
}

impl RegionSet {
    #[verifier::type_invariant]
    spec fn in_order(self) -> bool {
        ascending(self.ids@)
    }

    /// The empty set.
    pub fn new() -> (r: Self)
        ensures
            r@ == Seq::<RegionId>::empty(),
    {
        RegionSet { ids: Vec::new() }
    }

    /// The set of the regions of a list.
    pub fn from_ids(list: &[RegionId]) -> (r: Self)
        ensures
            r@ == region_set(list@),
    {
        let mut r = RegionSet::new();
        let mut i: usize = 0;
        assert(list@.take(0) =~= Seq::empty());
        while i < list.len()
            invariant
                i <= list.len(),
                r@ == region_set(list@.take(i as int)),
            decreases list.len() - i,
        {
            proof {
                assert(list@.take(i + 1).drop_last() =~= list@.take(i as int));
                assert(list@.take(i + 1).last() == list@[i as int]);
            }
            r.insert(list[i]);
            i += 1;
        }
        assert(list@.take(i as int) =~= list@);
        r
    }

    /// Put a region into the set.
    pub fn insert(&mut self, r: RegionId)
        ensures
            final(self)@ == with_region(old(self)@, r),
    {
        proof {
            use_type_invariant(&*self);
        }
        let mut ids: Vec<RegionId> = Vec::new();
        let mut i: usize = 0;
        let ghost all = self.ids@;
        assert(all.skip(0) =~= all);
        assert(ids@ + with_region(all.skip(0), r) =~= with_region(all, r));
        while i < self.ids.len() && self.ids[i].0 < r.0
            invariant
                i <= self.ids.len(),
                all == self.ids@,
                ids@ == all.take(i as int),
                ids@ + with_region(all.skip(i as int), r) == with_region(all, r),
            decreases self.ids.len() - i,
        {
            let ghost rest = all.skip(i as int);
            assert(rest[0] == all[i as int]);
            assert(rest.drop_first() =~= all.skip(i + 1));
            let ghost before = ids@;
            ids.push(self.ids[i]);
            assert(ids@ =~= all.take(i + 1));
            assert(before + (seq![rest[0]] + with_region(rest.drop_first(), r)) =~= ids@
                + with_region(all.skip(i + 1), r));
            i += 1;
        }
        if i < self.ids.len() && self.ids[i].0 == r.0 {
            assert(all.skip(i as int)[0] == all[i as int]);
            assert(all.take(i as int) + all.skip(i as int) =~= all);
            return ;
        }
        ids.push(r);
        let ghost n = i as int;
        while i < self.ids.len()
            invariant
                n <= i <= self.ids.len(),
                all == self.ids@,
                0 <= n,
                ids@ == all.take(n) + (seq![r] + all.subrange(n, i as int)),
            decreases self.ids.len() - i,
        {
            ids.push(self.ids[i]);
            assert(all.subrange(n, i + 1) =~= all.subrange(n, i as int).push(all[i as int]));
            assert(ids@ =~= all.take(n) + (seq![r] + all.subrange(n, i + 1)));
            i += 1;
        }
        proof {
            let rest = all.skip(n);
            assert(all.subrange(n, i as int) =~= rest);
            if rest.len() > 0 {
                assert(rest[0] == all[n]);
            } else {
                assert(seq![r] + rest =~= seq![r]);
            }
            assert(ids@ =~= with_region(all, r));
            law_with_region(all, r, r);
        }
        *self = RegionSet { ids };
    }

    /// Whether a region is in the set.
    pub fn contains(&self, r: RegionId) -> (b: bool)
        ensures
            b == self@.contains(r),
    {
        let mut i: usize = 0;
        while i < self.ids.len()
            invariant
                i <= self.ids.len(),
                forall|k: int| 0 <= k < i ==> #[trigger] self.ids@[k] != r,
            decreases self.ids.len() - i,
        {
            if self.ids[i] == r {
                assert(self@[i as int] == r);
                return true;
            }
            i += 1;
        }
        false
    }

    /// The number of regions.
    pub fn len(&self) -> (n: usize)
        ensures
            n == self@.len(),
    {
        self.ids.len()
    }

    /// Whether the set is empty.
    pub fn is_empty(&self) -> (b: bool)
        ensures
            b == (self@.len() == 0),
    {
        self.ids.len() == 0
    }

    /// The region at a place, in ascending order.
    pub fn at(&self, i: usize) -> (r: RegionId)
        requires
            i < self@.len(),
        ensures
            r == self@[i as int],
    {
        self.ids[i]
    }
}

// ---------------------------------------------------------------------------
// Anchors
// ---------------------------------------------------------------------------

/// A group of wires at the boundary of a circuit.
#[derive(Clone, Copy, PartialEq, Eq, PartialOrd, Ord, Hash, Debug, Structural)]
#[allow(inconsistent_fields)]
pub enum WireAnchor {
    /// Input bits.
    Input { start: u32, len: u32 },
    /// Output bits.
    Output { start: u32, len: u32 },
    /// Cells of a storage lane.
    Storage { storage: StorageId, lane: LaneId, start: u64, len: u64 },
}

impl WireAnchor {
    /// The first wire.
    pub open spec fn first(self) -> int {
        match self {
            WireAnchor::Input { start, .. } => start as int,
            WireAnchor::Output { start, .. } => start as int,
            WireAnchor::Storage { start, .. } => start as int,
        }
    }

    /// The number of wires.
    pub open spec fn count(self) -> int {
        match self {
            WireAnchor::Input { len, .. } => len as int,
            WireAnchor::Output { len, .. } => len as int,
            WireAnchor::Storage { len, .. } => len as int,
        }
    }

    /// Whether two anchors select wires of the same space.
    pub open spec fn same_space(self, other: WireAnchor) -> bool {
        match (self, other) {
            (WireAnchor::Input { .. }, WireAnchor::Input { .. }) => true,
            (WireAnchor::Output { .. }, WireAnchor::Output { .. }) => true,
            (
                WireAnchor::Storage { storage: s1, lane: l1, .. },
                WireAnchor::Storage { storage: s2, lane: l2, .. },
            ) => s1 == s2 && l1 == l2,
            _ => false,
        }
    }

    /// Whether two anchors share a wire.
    pub open spec fn meets(self, other: WireAnchor) -> bool {
        &&& self.same_space(other)
        &&& other.first() < self.first() + self.count()
        &&& self.first() < other.first() + other.count()
    }

    /// Whether the number of the wire behind the last fits.
    pub open spec fn fits(self) -> bool {
        match self {
            WireAnchor::Storage { start, len, .. } => start + len <= u64::MAX,
            _ => self.first() + self.count() <= u32::MAX,
        }
    }

    /// The order of anchors: inputs, outputs, cells; then by fields.
    pub open spec fn less(self, other: WireAnchor) -> bool {
        match (self, other) {
            (WireAnchor::Input { start: s1, len: n1 }, WireAnchor::Input { start: s2, len: n2 }) =>
                s1 < s2 || (s1 == s2 && n1 < n2),
            (WireAnchor::Input { .. }, _) => true,
            (
                WireAnchor::Output { start: s1, len: n1 },
                WireAnchor::Output { start: s2, len: n2 },
            ) => s1 < s2 || (s1 == s2 && n1 < n2),
            (WireAnchor::Output { .. }, WireAnchor::Storage { .. }) => true,
            (
                WireAnchor::Storage { storage: a1, lane: l1, start: s1, len: n1 },
                WireAnchor::Storage { storage: a2, lane: l2, start: s2, len: n2 },
            ) => a1.0 < a2.0 || (a1 == a2 && (l1.0 < l2.0 || (l1 == l2 && (s1 < s2 || (s1 == s2
                && n1 < n2))))),
            _ => false,
        }
    }

    /// The number of wires.
    pub fn len(&self) -> (n: u64)
        ensures
            n == self.count(),
    {
        match self {
            WireAnchor::Input { len, .. } => *len as u64,
            WireAnchor::Output { len, .. } => *len as u64,
            WireAnchor::Storage { len, .. } => *len,
        }
    }

    /// Whether there are no wires.
    pub fn is_empty(&self) -> (b: bool)
        ensures
            b == (self.count() == 0),
    {
        self.len() == 0
    }

    /// The first wire.
    fn start(&self) -> (n: u64)
        ensures
            n == self.first(),
    {
        match self {
            WireAnchor::Input { start, .. } => *start as u64,
            WireAnchor::Output { start, .. } => *start as u64,
            WireAnchor::Storage { start, .. } => *start,
        }
    }

    /// Whether this anchor stands before another.
    fn before(&self, other: &WireAnchor) -> (b: bool)
        ensures
            b == self.less(*other),
    {
        match (self, other) {
            (WireAnchor::Input { start: s1, len: n1 }, WireAnchor::Input { start: s2, len: n2 }) =>
                *s1 < *s2 || (*s1 == *s2 && *n1 < *n2),
            (WireAnchor::Input { .. }, _) => true,
            (
                WireAnchor::Output { start: s1, len: n1 },
                WireAnchor::Output { start: s2, len: n2 },
            ) => *s1 < *s2 || (*s1 == *s2 && *n1 < *n2),
            (WireAnchor::Output { .. }, WireAnchor::Storage { .. }) => true,
            (
                WireAnchor::Storage { storage: a1, lane: l1, start: s1, len: n1 },
                WireAnchor::Storage { storage: a2, lane: l2, start: s2, len: n2 },
            ) => a1.0 < a2.0 || (*a1 == *a2 && (l1.0 < l2.0 || (*l1 == *l2 && (*s1 < *s2 || (*s1
                == *s2 && *n1 < *n2))))),
            _ => false,
        }
    }

    /// Whether two anchors select wires of the same space.
    fn shares_space(&self, other: &WireAnchor) -> (b: bool)
        ensures
            b == self.same_space(*other),
    {
        match (self, other) {
            (WireAnchor::Input { .. }, WireAnchor::Input { .. }) => true,
            (WireAnchor::Output { .. }, WireAnchor::Output { .. }) => true,
            (
                WireAnchor::Storage { storage: s1, lane: l1, .. },
                WireAnchor::Storage { storage: s2, lane: l2, .. },
            ) => *s1 == *s2 && *l1 == *l2,
            _ => false,
        }
    }

    /// Whether the wire at a place is one of this anchor.
    fn covers(&self, pos: u64) -> (b: bool)
        ensures
            b == (self.first() <= pos < self.first() + self.count()),
    {
        let start: u64 = self.start();
        start <= pos && pos - start < self.len()
    }
}

/// A group of wires with the regions that they belong to.
#[derive(PartialEq, Eq, PartialOrd, Ord, Hash, Debug)]
pub struct RegionEntry {
    pub anchor: WireAnchor,
    pub regions: RegionSet,
}

/// What a [`RegionEntry`] denotes.
#[verifier::ext_equal]
pub struct RegionEntryView {
    pub anchor: WireAnchor,
    pub regions: Seq<RegionId>,
}

impl View for RegionEntry {
    type V = RegionEntryView;

    open spec fn view(&self) -> RegionEntryView {
        RegionEntryView { anchor: self.anchor, regions: self.regions@ }
    }
}

/// The views of a list of entries.
pub open spec fn region_entry_views(s: Seq<RegionEntry>) -> Seq<RegionEntryView> {
    s.map_values(|e: RegionEntry| e@)
}

/// A wire at the boundary of a circuit.
#[derive(Clone, Copy, PartialEq, Eq, PartialOrd, Ord, Hash, Debug, Structural)]
pub enum BoundaryWire {
    Input(u32),
    Output(u32),
    Cell { storage: StorageId, lane: LaneId, addr: u64 },
}

// ---------------------------------------------------------------------------
// Selectors
// ---------------------------------------------------------------------------

/// Wires by the regions that they are in and those that they are not in.
#[derive(PartialEq, Eq, Debug)]
pub struct RegionSelector {
    /// The regions that a wire must be in.
    pub all_of: RegionSet,
    /// The regions that it must not be in.
    pub none_of: RegionSet,
}

/// What a [`RegionSelector`] denotes.
#[verifier::ext_equal]
pub struct SelectorView {
    pub all_of: Seq<RegionId>,
    pub none_of: Seq<RegionId>,
}

impl View for RegionSelector {
    type V = SelectorView;

    open spec fn view(&self) -> SelectorView {
        SelectorView { all_of: self.all_of@, none_of: self.none_of@ }
    }
}

impl SelectorView {
    /// Whether a set of regions is selected.
    pub open spec fn selects(self, regions: Seq<RegionId>) -> bool {
        &&& forall|i: int| 0 <= i < self.all_of.len() ==> regions.contains(#[trigger] self.all_of[i])
        &&& forall|i: int|
            0 <= i < self.none_of.len() ==> !regions.contains(#[trigger] self.none_of[i])
    }
}

impl Clone for RegionSelector {
    fn clone(&self) -> (r: Self)
        ensures
            r@ == self@,
    {
        RegionSelector { all_of: self.all_of.clone(), none_of: self.none_of.clone() }
    }
}

impl Default for RegionSelector {
    fn default() -> (r: Self)
        ensures
            r@ == (SelectorView { all_of: Seq::empty(), none_of: Seq::empty() }),
    {
        RegionSelector { all_of: RegionSet::new(), none_of: RegionSet::new() }
    }
}

impl RegionSelector {
    /// Wires in every region of a list.
    pub fn all_of(list: &[RegionId]) -> (r: Self)
        ensures
            r@ == (SelectorView { all_of: region_set(list@), none_of: Seq::empty() }),
    {
        RegionSelector { all_of: RegionSet::from_ids(list), none_of: RegionSet::new() }
    }

    /// Wires in no region of a list.
    pub fn none_of(list: &[RegionId]) -> (r: Self)
        ensures
            r@ == (SelectorView { all_of: Seq::empty(), none_of: region_set(list@) }),
    {
        RegionSelector { all_of: RegionSet::new(), none_of: RegionSet::from_ids(list) }
    }

    /// Whether a set of regions is selected.
    pub fn matches(&self, regions: &RegionSet) -> (b: bool)
        ensures
            b == self@.selects(regions@),
    {
        let mut i: usize = 0;
        while i < self.all_of.len()
            invariant
                i <= self.all_of@.len(),
                forall|k: int| 0 <= k < i ==> regions@.contains(#[trigger] self.all_of@[k]),
            decreases self.all_of@.len() - i,
        {
            if !regions.contains(self.all_of.at(i)) {
                assert(!regions@.contains(self@.all_of[i as int]));
                return false;
            }
            i += 1;
        }
        let mut j: usize = 0;
        while j < self.none_of.len()
            invariant
                j <= self.none_of@.len(),
                forall|k: int|
                    0 <= k < self.all_of@.len() ==> regions@.contains(#[trigger] self.all_of@[k]),
                forall|k: int| 0 <= k < j ==> !regions@.contains(#[trigger] self.none_of@[k]),
            decreases self.none_of@.len() - j,
        {
            if regions.contains(self.none_of.at(j)) {
                assert(regions@.contains(self@.none_of[j as int]));
                return false;
            }
            j += 1;
        }
        true
    }
}

// ---------------------------------------------------------------------------
// Names
// ---------------------------------------------------------------------------

/// The order of regions.
pub open spec fn region_order() -> spec_fn(RegionId, RegionId) -> bool {
    |a: RegionId, b: RegionId| a.0 < b.0
}

/// Names of regions, for printing.
#[derive(PartialEq, Eq, Debug)]
pub struct RegionNames {
    pub entries: Vec<(RegionId, String)>,
}

/// The views of a list of names.
pub open spec fn name_views(s: Seq<(RegionId, String)>) -> Seq<(RegionId, Seq<char>)> {
    s.map_values(|e: (RegionId, String)| (e.0, e.1@))
}

impl View for RegionNames {
    type V = Seq<(RegionId, Seq<char>)>;

    open spec fn view(&self) -> Seq<(RegionId, Seq<char>)> {
        name_views(self.entries@)
    }
}

impl RegionNames {
    /// No names.
    pub fn new() -> (r: Self)
        ensures
            r@ == Seq::<(RegionId, Seq<char>)>::empty(),
    {
        let r = RegionNames { entries: Vec::new() };
        assert(r@ =~= Seq::empty());
        r
    }

    /// Name a region.
    pub fn insert(&mut self, id: RegionId, name: String)
        ensures
            final(self)@ == assoc_insert(old(self)@, id, name@, region_order()),
    {
        let ghost s = self@;
        let mut i: usize = 0;
        while i < self.entries.len() && self.entries[i].0 != id && self.entries[i].0.0 < id.0
            invariant
                i <= self.entries.len(),
                s == name_views(self.entries@),
                self.entries@ == old(self).entries@,
                forall|k: int|
                    0 <= k < i ==> (#[trigger] s[k]).0 != id && !region_order()(id, s[k].0),
            decreases self.entries.len() - i,
        {
            assert(s[i as int].0 == self.entries@[i as int].0);
            i += 1;
        }
        proof {
            if i < self.entries@.len() {
                assert(s[i as int].0 == self.entries@[i as int].0);
            }
            lemma_assoc_insert_at(s, id, name@, region_order(), i as int);
        }
        let ghost before = self.entries@;
        let ghost nv = name@;
        if i < self.entries.len() && self.entries[i].0 == id {
            self.entries.set(i, (id, name));
            assert(name_views(self.entries@) =~= s.update(i as int, (id, nv)));
        } else {
            self.entries.insert(i, (id, name));
            assert(name_views(self.entries@) =~= s.insert(i as int, (id, nv)));
        }
    }

    /// The name of a region, if it has one.
    pub fn get(&self, id: RegionId) -> (r: Option<&String>)
        ensures
            match r {
                Some(n) => assoc_get(self@, id) == Some(n@),
                None => assoc_get(self@, id) is None,
            },
    {
        let ghost s = self@;
        let mut i: usize = 0;
        while i < self.entries.len() && self.entries[i].0 != id
            invariant
                i <= self.entries.len(),
                s == name_views(self.entries@),
                forall|k: int| 0 <= k < i ==> (#[trigger] s[k]).0 != id,
            decreases self.entries.len() - i,
        {
            assert(s[i as int].0 == self.entries@[i as int].0);
            i += 1;
        }
        proof {
            if i < self.entries@.len() {
                assert(s[i as int].0 == self.entries@[i as int].0);
            }
            lemma_assoc_get_at(s, id, i as int);
        }
        if i < self.entries.len() {
            Some(&self.entries[i].1)
        } else {
            None
        }
    }
}

impl Default for RegionNames {
    fn default() -> (r: Self)
        ensures
            r@ == Seq::<(RegionId, Seq<char>)>::empty(),
    {
        RegionNames::new()
    }
}

// ---------------------------------------------------------------------------
// Tables
// ---------------------------------------------------------------------------

/// What is wrong with a table.
#[derive(Clone, Copy, PartialEq, Eq, Debug, Structural)]
#[allow(inconsistent_fields)]
pub enum RegionError {
    /// An anchor without wires.
    EmptyAnchor(WireAnchor),
    /// An input anchor beyond the inputs of the circuit.
    InputOutOfRange { start: u32, len: u32, params: u32 },
    /// An output anchor beyond the outputs of the circuit.
    OutputOutOfRange { start: u32, len: u32, outputs: u32 },
    /// A storage lane that the circuit does not use.
    UnknownStorageSpace { storage: StorageId, lane: LaneId },
    /// A range of cells beyond the last address.
    StorageRangeOverflow { start: u64, len: u64 },
    /// Two entries with a wire in common.
    OverlappingEntries { first: WireAnchor, second: WireAnchor },
    /// Entries out of order.
    Unsorted,
    /// An entry without regions.
    EmptyRegions(WireAnchor),
}

/// The regions of the wires of one circuit. Entries are in the order of their
/// anchors, and no wire has two.
#[derive(PartialEq, Eq, Debug)]
pub struct RegionTable {
    pub entries: Vec<RegionEntry>,
    pub names: RegionNames,
}

/// What a [`RegionTable`] denotes.
#[verifier::ext_equal]
pub struct RegionTableView {
    pub entries: Seq<RegionEntryView>,
    pub names: Seq<(RegionId, Seq<char>)>,
}

impl View for RegionTable {
    type V = RegionTableView;

    open spec fn view(&self) -> RegionTableView {
        RegionTableView { entries: region_entry_views(self.entries@), names: self.names@ }
    }
}

/// What a circuit offers to a table.
#[verifier::ext_equal]
pub struct Host {
    pub params: u32,
    pub outputs: u32,
    pub stmts: Seq<BIrStmtView>,
    pub pre_init: Seq<BIrPreInitView>,
}

/// What a circuit offers to a table.
pub open spec fn host_of<P>(c: BCircuit<P>) -> Host {
    Host {
        params: c.params,
        outputs: c.outputs.len() as u32,
        stmts: bir_node_kinds(c.stmts@),
        pre_init: bir_pre_init_views(c.pre_init@),
    }
}

/// Whether a statement reads or writes a lane.
pub open spec fn stmt_uses(s: BIrStmtView, storage: StorageId, lane: LaneId) -> bool {
    match s {
        BIrStmtView::StorageRead { storage: a, lane: l, .. } => a == storage && l == lane,
        BIrStmtView::StorageWrite { storage: a, lane: l, .. } => a == storage && l == lane,
        _ => false,
    }
}

impl Host {
    /// Whether the circuit uses a lane.
    pub open spec fn uses(self, storage: StorageId, lane: LaneId) -> bool {
        ||| exists|i: int|
            0 <= i < self.pre_init.len() && (#[trigger] self.pre_init[i]).storage == storage
                && self.pre_init[i].lane == lane
        ||| exists|i: int| 0 <= i < self.stmts.len() && stmt_uses(#[trigger] self.stmts[i], storage, lane)
    }
}

/// A sum that stays within its number.
pub open spec fn saturated(a: u32, b: u32) -> int {
    if a + b > u32::MAX {
        u32::MAX as int
    } else {
        a + b
    }
}

/// What is wrong with an anchor by itself.
pub open spec fn anchor_error(a: WireAnchor, host: Host) -> Option<RegionError> {
    if a.count() == 0 {
        Some(RegionError::EmptyAnchor(a))
    } else {
        match a {
            WireAnchor::Input { start, len } => if saturated(start, len) > host.params {
                Some(RegionError::InputOutOfRange { start, len, params: host.params })
            } else {
                None
            },
            WireAnchor::Output { start, len } => if saturated(start, len) > host.outputs {
                Some(RegionError::OutputOutOfRange { start, len, outputs: host.outputs })
            } else {
                None
            },
            WireAnchor::Storage { storage, lane, start, len } => if start + len > u64::MAX {
                Some(RegionError::StorageRangeOverflow { start, len })
            } else if !host.uses(storage, lane) {
                Some(RegionError::UnknownStorageSpace { storage, lane })
            } else {
                None
            },
        }
    }
}

/// What is wrong with the place of entry `i` behind the one before it.
pub open spec fn order_error(entries: Seq<RegionEntryView>, i: int) -> Option<RegionError> {
    if i == 0 || entries[i - 1].anchor.less(entries[i].anchor) {
        None
    } else if entries[i - 1].anchor == entries[i].anchor {
        Some(
            RegionError::OverlappingEntries {
                first: entries[i - 1].anchor,
                second: entries[i].anchor,
            },
        )
    } else {
        Some(RegionError::Unsorted)
    }
}

/// The first of the entries from `from` on before `i` that shares a wire with
/// entry `i`.
pub open spec fn overlap_error(entries: Seq<RegionEntryView>, i: int, from: int) -> Option<
    RegionError,
>
    decreases i - from,
{
    if from >= i {
        None
    } else if entries[from].anchor.meets(entries[i].anchor) {
        Some(
            RegionError::OverlappingEntries {
                first: entries[from].anchor,
                second: entries[i].anchor,
            },
        )
    } else {
        overlap_error(entries, i, from + 1)
    }
}

/// What is wrong with entry `i`.
pub open spec fn entry_error(entries: Seq<RegionEntryView>, host: Host, i: int) -> Option<
    RegionError,
> {
    if entries[i].regions.len() == 0 {
        Some(RegionError::EmptyRegions(entries[i].anchor))
    } else {
        match order_error(entries, i) {
            Some(e) => Some(e),
            None => match anchor_error(entries[i].anchor, host) {
                Some(e) => Some(e),
                None => overlap_error(entries, i, 0),
            },
        }
    }
}

/// What is wrong with the first entry, from `from` on, with which something is.
pub open spec fn entries_error(entries: Seq<RegionEntryView>, host: Host, from: int) -> Option<
    RegionError,
>
    decreases entries.len() - from,
{
    if from >= entries.len() {
        None
    } else {
        match entry_error(entries, host, from) {
            Some(e) => Some(e),
            None => entries_error(entries, host, from + 1),
        }
    }
}

/// The regions of the wire `pos` of a space, by the first entry that covers it.
pub open spec fn regions_of(entries: Seq<RegionEntryView>, space: WireAnchor, pos: u64) -> Option<
    Seq<RegionId>,
>
    decreases entries.len(),
{
    if entries.len() == 0 {
        None
    } else {
        let a = entries[0].anchor;
        if a.same_space(space) && a.first() <= pos < a.first() + a.count() {
            Some(entries[0].regions)
        } else {
            regions_of(entries.drop_first(), space, pos)
        }
    }
}

/// The wires of an anchor, in order.
pub open spec fn anchor_wires(a: WireAnchor) -> Seq<BoundaryWire> {
    match a {
        WireAnchor::Input { start, len } => Seq::new(
            len as nat,
            |i: int| BoundaryWire::Input((start + i) as u32),
        ),
        WireAnchor::Output { start, len } => Seq::new(
            len as nat,
            |i: int| BoundaryWire::Output((start + i) as u32),
        ),
        WireAnchor::Storage { storage, lane, start, len } => Seq::new(
            len as nat,
            |i: int| BoundaryWire::Cell { storage, lane, addr: (start + i) as u64 },
        ),
    }
}

/// The wires whose regions a selector selects, in the order of the entries.
pub open spec fn selected_wires(entries: Seq<RegionEntryView>, sel: SelectorView) -> Seq<
    BoundaryWire,
>
    decreases entries.len(),
{
    if entries.len() == 0 {
        Seq::empty()
    } else {
        let rest = selected_wires(entries.drop_last(), sel);
        if sel.selects(entries.last().regions) {
            rest + anchor_wires(entries.last().anchor)
        } else {
            rest
        }
    }
}

/// Whether a circuit uses a lane.
fn host_uses_storage<P>(host: &BCircuit<P>, storage: StorageId, lane: LaneId) -> (b: bool)
    ensures
        b == host_of(*host).uses(storage, lane),
{
    let ghost h = host_of(*host);
    let mut i: usize = 0;
    while i < host.pre_init.len()
        invariant
            i <= host.pre_init.len(),
            h == host_of(*host),
            forall|k: int|
                0 <= k < i ==> !((#[trigger] h.pre_init[k]).storage == storage
                    && h.pre_init[k].lane == lane),
        decreases host.pre_init.len() - i,
    {
        assert(h.pre_init[i as int] == host.pre_init@[i as int]@);
        if host.pre_init[i].storage == storage && host.pre_init[i].lane == lane {
            return true;
        }
        i += 1;
    }
    let mut j: usize = 0;
    while j < host.stmts.len()
        invariant
            j <= host.stmts.len(),
            h == host_of(*host),
            forall|k: int|
                0 <= k < h.pre_init.len() ==> !((#[trigger] h.pre_init[k]).storage == storage
                    && h.pre_init[k].lane == lane),
            forall|k: int| 0 <= k < j ==> !stmt_uses(#[trigger] h.stmts[k], storage, lane),
        decreases host.stmts.len() - j,
    {
        assert(h.stmts[j as int] == host.stmts@[j as int].kind@);
        let used: bool = match &host.stmts[j].kind {
            BIrStmt::StorageRead { storage: a, lane: l, .. } => *a == storage && *l == lane,
            BIrStmt::StorageWrite { storage: a, lane: l, .. } => *a == storage && *l == lane,
            _ => false,
        };
        if used {
            assert(stmt_uses(h.stmts[j as int], storage, lane));
            return true;
        }
        j += 1;
    }
    false
}

impl RegionTable {
    /// A table without entries.
    pub fn new() -> (r: Self)
        ensures
            r@ == (RegionTableView { entries: Seq::empty(), names: Seq::empty() }),
    {
        let r = RegionTable { entries: Vec::new(), names: RegionNames::new() };
        assert(r@.entries =~= Seq::empty());
        r
    }

    /// Check an anchor by itself.
    fn check_anchor<P>(a: WireAnchor, host: &BCircuit<P>) -> (r: Result<(), RegionError>)
        ensures
            match r {
                Ok(_) => anchor_error(a, host_of(*host)) is None,
                Err(e) => anchor_error(a, host_of(*host)) == Some(e),
            },
    {
        if a.is_empty() {
            return Err(RegionError::EmptyAnchor(a));
        }
        match a {
            WireAnchor::Input { start, len } => {
                if start.saturating_add(len) > host.params {
                    return Err(RegionError::InputOutOfRange { start, len, params: host.params });
                }
            },
            WireAnchor::Output { start, len } => {
                let outputs: u32 = host.outputs.len() as u32;
                if start.saturating_add(len) > outputs {
                    return Err(RegionError::OutputOutOfRange { start, len, outputs });
                }
            },
            WireAnchor::Storage { storage, lane, start, len } => {
                if start.checked_add(len).is_none() {
                    return Err(RegionError::StorageRangeOverflow { start, len });
                }
                if !host_uses_storage(host, storage, lane) {
                    return Err(RegionError::UnknownStorageSpace { storage, lane });
                }
            },
        }
        Ok(())
    }

    /// Check that an entry shares no wire with those before it.
    fn check_disjoint(&self, i: usize) -> (r: Result<(), RegionError>)
        requires
            i < self.entries@.len(),
        ensures
            match r {
                Ok(_) => overlap_error(self@.entries, i as int, 0) is None,
                Err(e) => overlap_error(self@.entries, i as int, 0) == Some(e),
            },
    {
        let ghost es = self@.entries;
        let second: WireAnchor = self.entries[i].anchor;
        let mut k: usize = 0;
        while k < i
            invariant
                k <= i,
                i < self.entries@.len(),
                es == region_entry_views(self.entries@),
                second == es[i as int].anchor,
                overlap_error(es, i as int, 0) == overlap_error(es, i as int, k as int),
            decreases i - k,
        {
            let first: WireAnchor = self.entries[k].anchor;
            assert(es[k as int].anchor == first);
            let a: u128 = first.start() as u128;
            let b: u128 = second.start() as u128;
            if first.shares_space(&second) && b < a + first.len() as u128 && a < b
                + second.len() as u128 {
                return Err(RegionError::OverlappingEntries { first, second });
            }
            k += 1;
        }
        Ok(())
    }

    /// Check the table against a circuit.
    pub fn validate<P>(&self, host: &BCircuit<P>) -> (r: Result<(), RegionError>)
        ensures
            match r {
                Ok(_) => entries_error(self@.entries, host_of(*host), 0) is None,
                Err(e) => entries_error(self@.entries, host_of(*host), 0) == Some(e),
            },
    {
        let ghost es = self@.entries;
        let ghost h = host_of(*host);
        let mut i: usize = 0;
        while i < self.entries.len()
            invariant
                i <= self.entries.len(),
                es == region_entry_views(self.entries@),
                h == host_of(*host),
                entries_error(es, h, 0) == entries_error(es, h, i as int),
            decreases self.entries.len() - i,
        {
            let anchor: WireAnchor = self.entries[i].anchor;
            assert(es[i as int] == self.entries@[i as int]@);
            if self.entries[i].regions.is_empty() {
                return Err(RegionError::EmptyRegions(anchor));
            }
            if i > 0 {
                let prev: WireAnchor = self.entries[i - 1].anchor;
                assert(es[i - 1] == self.entries@[i - 1]@);
                if !prev.before(&anchor) {
                    if prev == anchor {
                        return Err(
                            RegionError::OverlappingEntries { first: prev, second: anchor },
                        );
                    }
                    return Err(RegionError::Unsorted);
                }
            }
            match RegionTable::check_anchor(anchor, host) {
                Ok(_) => {},
                Err(e) => {
                    return Err(e);
                },
            }
            match self.check_disjoint(i) {
                Ok(_) => {},
                Err(e) => {
                    return Err(e);
                },
            }
            i += 1;
        }
        Ok(())
    }

    /// The regions of the wire `pos` of a space.
    fn find(&self, space: &WireAnchor, pos: u64) -> (r: Option<&RegionSet>)
        ensures
            match r {
                Some(s) => regions_of(self@.entries, *space, pos) == Some(s@),
                None => regions_of(self@.entries, *space, pos) is None,
            },
    {
        let ghost es = self@.entries;
        let mut i: usize = 0;
        assert(es.skip(0) =~= es);
        while i < self.entries.len()
            invariant
                i <= self.entries.len(),
                es == region_entry_views(self.entries@),
                regions_of(es, *space, pos) == regions_of(es.skip(i as int), *space, pos),
            decreases self.entries.len() - i,
        {
            proof {
                assert(es.skip(i as int)[0] == self.entries@[i as int]@);
                assert(es.skip(i as int).drop_first() =~= es.skip(i + 1));
            }
            if self.entries[i].anchor.shares_space(space) && self.entries[i].anchor.covers(pos) {
                return Some(&self.entries[i].regions);
            }
            i += 1;
        }
        None
    }

    /// The regions of an input bit.
    pub fn input_regions(&self, bit: u32) -> (r: Option<&RegionSet>)
        ensures
            match r {
                Some(s) => regions_of(
                    self@.entries,
                    WireAnchor::Input { start: 0, len: 0 },
                    bit as u64,
                ) == Some(s@),
                None => regions_of(
                    self@.entries,
                    WireAnchor::Input { start: 0, len: 0 },
                    bit as u64,
                ) is None,
            },
    {
        self.find(&WireAnchor::Input { start: 0, len: 0 }, bit as u64)
    }

    /// The regions of an output bit.
    pub fn output_regions(&self, bit: u32) -> (r: Option<&RegionSet>)
        ensures
            match r {
                Some(s) => regions_of(
                    self@.entries,
                    WireAnchor::Output { start: 0, len: 0 },
                    bit as u64,
                ) == Some(s@),
                None => regions_of(
                    self@.entries,
                    WireAnchor::Output { start: 0, len: 0 },
                    bit as u64,
                ) is None,
            },
    {
        self.find(&WireAnchor::Output { start: 0, len: 0 }, bit as u64)
    }

    /// The regions of a storage cell.
    pub fn cell_regions(&self, storage: StorageId, lane: LaneId, addr: u64) -> (r: Option<
        &RegionSet,
    >)
        ensures
            match r {
                Some(s) => regions_of(
                    self@.entries,
                    WireAnchor::Storage { storage, lane, start: 0, len: 0 },
                    addr,
                ) == Some(s@),
                None => regions_of(
                    self@.entries,
                    WireAnchor::Storage { storage, lane, start: 0, len: 0 },
                    addr,
                ) is None,
            },
    {
        self.find(&WireAnchor::Storage { storage, lane, start: 0, len: 0 }, addr)
    }

    /// The wires whose regions a selector selects.
    pub fn select(&self, sel: &RegionSelector) -> (r: Vec<BoundaryWire>)
        requires
            forall|i: int|
                0 <= i < self@.entries.len() && sel@.selects(
                    (#[trigger] self@.entries[i]).regions,
                ) ==> self@.entries[i].anchor.fits(),
        ensures
            r@ == selected_wires(self@.entries, sel@),
    {
        let ghost es = self@.entries;
        let mut out: Vec<BoundaryWire> = Vec::new();
        let mut i: usize = 0;
        assert(es.take(0) =~= Seq::empty());
        while i < self.entries.len()
            invariant
                i <= self.entries.len(),
                es == region_entry_views(self.entries@),
                forall|k: int|
                    0 <= k < es.len() && sel@.selects((#[trigger] es[k]).regions)
                        ==> es[k].anchor.fits(),
                out@ == selected_wires(es.take(i as int), sel@),
            decreases self.entries.len() - i,
        {
            proof {
                assert(es.take(i + 1).drop_last() =~= es.take(i as int));
                assert(es.take(i + 1).last() == self.entries@[i as int]@);
                assert(es[i as int] == self.entries@[i as int]@);
            }
            if sel.matches(&self.entries[i].regions) {
                push_wires(&self.entries[i].anchor, &mut out);
            }
            i += 1;
        }
        assert(es.take(i as int) =~= es);
        out
    }
}

/// Append the wires of an anchor.
fn push_wires(a: &WireAnchor, out: &mut Vec<BoundaryWire>)
    requires
        a.fits(),
    ensures
        final(out)@ == old(out)@ + anchor_wires(*a),
{
    let ghost before = out@;
    let ghost all = anchor_wires(*a);
    let n: u64 = a.len();
    let mut i: u64 = 0;
    assert(before + all.take(0) =~= before);
    while i < n
        invariant
            i <= n,
            n == a.count(),
            a.fits(),
            all == anchor_wires(*a),
            out@ == before + all.take(i as int),
        decreases n - i,
    {
        let w: BoundaryWire = match a {
            WireAnchor::Input { start, .. } => BoundaryWire::Input(*start + i as u32),
            WireAnchor::Output { start, .. } => BoundaryWire::Output(*start + i as u32),
            WireAnchor::Storage { storage, lane, start, .. } => BoundaryWire::Cell {
                storage: *storage,
                lane: *lane,
                addr: *start + i,
            },
        };
        assert(all.take(i + 1) =~= all.take(i as int).push(w));
        out.push(w);
        assert(out@ =~= before + all.take(i + 1));
        i += 1;
    }
    assert(all.take(i as int) =~= all);
}

impl Default for RegionTable {
    fn default() -> (r: Self)
        ensures
            r@ == (RegionTableView { entries: Seq::empty(), names: Seq::empty() }),
    {
        RegionTable::new()
    }
}

// ---------------------------------------------------------------------------
// Laws
// ---------------------------------------------------------------------------

/// In a table that is in order no two entries share a wire, every entry has
/// regions, and every anchor has wires that the circuit has.
pub proof fn law_valid_entries(entries: Seq<RegionEntryView>, host: Host, i: int)
    requires
        entries_error(entries, host, 0) is None,
        0 <= i < entries.len(),
    ensures
        entries[i].regions.len() > 0,
        anchor_error(entries[i].anchor, host) is None,
        forall|j: int| 0 <= j < i ==> !(#[trigger] entries[j]).anchor.meets(entries[i].anchor),
{
    lemma_entry_ok(entries, host, 0, i);
    assert forall|j: int| 0 <= j < i implies !(#[trigger] entries[j]).anchor.meets(
        entries[i].anchor,
    ) by {
        lemma_no_overlap(entries, i, 0, j);
    }
}

proof fn lemma_entry_ok(entries: Seq<RegionEntryView>, host: Host, from: int, i: int)
    requires
        entries_error(entries, host, from) is None,
        0 <= from <= i < entries.len(),
    ensures
        entry_error(entries, host, i) is None,
    decreases i - from,
{
    if from < i {
        lemma_entry_ok(entries, host, from + 1, i);
    }
}

proof fn lemma_no_overlap(entries: Seq<RegionEntryView>, i: int, from: int, j: int)
    requires
        overlap_error(entries, i, from) is None,
        0 <= from <= j < i,
    ensures
        !entries[j].anchor.meets(entries[i].anchor),
    decreases j - from,
{
    if from < j {
        lemma_no_overlap(entries, i, from + 1, j);
    }
}

/// In a table that is in order the regions of a wire are those of the one entry
/// that covers it.
pub proof fn law_lookup_unique(
    entries: Seq<RegionEntryView>,
    host: Host,
    space: WireAnchor,
    pos: u64,
    i: int,
)
    requires
        entries_error(entries, host, 0) is None,
        0 <= i < entries.len(),
        entries[i].anchor.same_space(space),
        entries[i].anchor.first() <= pos < entries[i].anchor.first() + entries[i].anchor.count(),
    ensures
        regions_of(entries, space, pos) == Some(entries[i].regions),
{
    law_valid_entries(entries, host, i);
    assert forall|j: int| 0 <= j < i implies !((#[trigger] entries[j]).anchor.same_space(space)
        && entries[j].anchor.first() <= pos < entries[j].anchor.first()
        + entries[j].anchor.count()) by {
        assert(!entries[j].anchor.meets(entries[i].anchor));
    }
    lemma_regions_of(entries, space, pos, i);
}

proof fn lemma_regions_of(entries: Seq<RegionEntryView>, space: WireAnchor, pos: u64, i: int)
    requires
        0 <= i < entries.len(),
        entries[i].anchor.same_space(space),
        entries[i].anchor.first() <= pos < entries[i].anchor.first() + entries[i].anchor.count(),
        forall|j: int|
            0 <= j < i ==> !((#[trigger] entries[j]).anchor.same_space(space)
                && entries[j].anchor.first() <= pos < entries[j].anchor.first()
                + entries[j].anchor.count()),
    ensures
        regions_of(entries, space, pos) == Some(entries[i].regions),
    decreases i,
{
    if i > 0 {
        assert(!(entries[0].anchor.same_space(space) && entries[0].anchor.first() <= pos
            < entries[0].anchor.first() + entries[0].anchor.count()));
        let rest = entries.drop_first();
        assert(rest[i - 1] == entries[i]);
        assert forall|j: int| 0 <= j < i - 1 implies !((#[trigger] rest[j]).anchor.same_space(space)
            && rest[j].anchor.first() <= pos < rest[j].anchor.first()
            + rest[j].anchor.count()) by {
            assert(rest[j] == entries[j + 1]);
        }
        lemma_regions_of(rest, space, pos, i - 1);
    }
}

/// A wire is selected exactly if some entry has it and regions that the
/// selector selects.
pub proof fn law_selected(entries: Seq<RegionEntryView>, sel: SelectorView, w: BoundaryWire)
    ensures
        selected_wires(entries, sel).contains(w) <==> exists|i: int|
            0 <= i < entries.len() && sel.selects((#[trigger] entries[i]).regions)
                && anchor_wires(entries[i].anchor).contains(w),
    decreases entries.len(),
{
    if entries.len() > 0 {
        let rest = entries.drop_last();
        let last = entries.last();
        law_selected(rest, sel, w);
        let a = selected_wires(rest, sel);
        let b = anchor_wires(last.anchor);
        let all = selected_wires(entries, sel);
        if a.contains(w) {
            let i = choose|i: int|
                0 <= i < rest.len() && sel.selects((#[trigger] rest[i]).regions) && anchor_wires(
                    rest[i].anchor,
                ).contains(w);
            assert(entries[i] == rest[i]);
            let k = choose|k: int| 0 <= k < a.len() && a[k] == w;
            assert(all[k] == w);
        }
        if sel.selects(last.regions) && b.contains(w) {
            assert(entries[entries.len() - 1] == last);
            let k = choose|k: int| 0 <= k < b.len() && b[k] == w;
            assert(all[a.len() + k] == w);
        }
        if all.contains(w) {
            let k = choose|k: int| 0 <= k < all.len() && all[k] == w;
            if k < a.len() {
                assert(a[k] == w);
            } else {
                assert(b[k - a.len()] == w);
            }
        }
        if exists|i: int|
            0 <= i < entries.len() && sel.selects((#[trigger] entries[i]).regions) && anchor_wires(
                entries[i].anchor,
            ).contains(w) {
            let i = choose|i: int|
                0 <= i < entries.len() && sel.selects((#[trigger] entries[i]).regions)
                    && anchor_wires(entries[i].anchor).contains(w);
            if i < rest.len() {
                assert(rest[i] == entries[i]);
            }
        }
    }
}

} // verus!
