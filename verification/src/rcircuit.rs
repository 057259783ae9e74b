//! Reversible circuits: bijections on a fixed vector of wires, jointly with
//! the storage they exchange bits with, written as a list of gates.
//!
//! Gates change wires in place. Every gate is its own inverse, so a circuit is
//! inverted by reversing the order of its gates.

use vstd::arithmetic::power2::{lemma_pow2_unfold, pow2};
use vstd::prelude::*;

use crate::boolar::LaneId;
use crate::common::StorageId;
use crate::fmt::{dec, hex, push_dec, push_hex};

verus! {

/// The kind of source that an external gate reads.
#[derive(Clone, Copy, PartialEq, Eq, PartialOrd, Ord, Hash, Debug, Structural)]
pub enum RExternalKind {
    Oracle,
    Rng,
}

/// A reversible gate. Wires are positions in the wire vector.
#[derive(PartialEq, Eq, PartialOrd, Ord, Hash, Debug)]
pub enum RGate {
    /// Negate one wire.
    X(usize),
    /// `target ^= ctrl`.
    Cnot { ctrl: usize, target: usize },
    /// `target ^= c1 & c2`.
    Ccnot { c1: usize, c2: usize, target: usize },
    /// Exchange the target wire with the stored bit at `addr`, whose wires
    /// give the address least significant bit first.
    StorageSwap { storage: StorageId, lane: LaneId, addr: Vec<usize>, target: usize },
    /// `target ^= table(controls)`, where bit 3 of the table is for inputs
    /// `00`, bit 2 for `01`, bit 1 for `10` and bit 0 for `11`.
    XorLut2 { controls: [usize; 2], target: usize, table: u8 },
    /// `target ^= source(args, bit, occurrence)`.
    ExternalXor {
        kind: RExternalKind,
        name: String,
        args: Vec<usize>,
        target: usize,
        bit: usize,
        occurrence: u64,
    },
    /// `storage[addr] ^= if guard { action(args, bit, occurrence) } else { fallback }`.
    ExternalStorageXor {
        name: String,
        guard: usize,
        args: Vec<usize>,
        fallback: usize,
        storage: StorageId,
        lane: LaneId,
        addr: Vec<usize>,
        bit: usize,
        occurrence: u64,
    },
}

/// What an [`RGate`] denotes.
#[verifier::ext_equal]
pub enum RGateView {
    X(usize),
    Cnot { ctrl: usize, target: usize },
    Ccnot { c1: usize, c2: usize, target: usize },
    StorageSwap { storage: StorageId, lane: LaneId, addr: Seq<usize>, target: usize },
    XorLut2 { control0: usize, control1: usize, target: usize, table: u8 },
    ExternalXor {
        kind: RExternalKind,
        name: Seq<char>,
        args: Seq<usize>,
        target: usize,
        bit: usize,
        occurrence: u64,
    },
    ExternalStorageXor {
        name: Seq<char>,
        guard: usize,
        args: Seq<usize>,
        fallback: usize,
        storage: StorageId,
        lane: LaneId,
        addr: Seq<usize>,
        bit: usize,
        occurrence: u64,
    },
}

impl View for RGate {
    type V = RGateView;

    open spec fn view(&self) -> RGateView {
        match *self {
            RGate::X(w) => RGateView::X(w),
            RGate::Cnot { ctrl, target } => RGateView::Cnot { ctrl, target },
            RGate::Ccnot { c1, c2, target } => RGateView::Ccnot { c1, c2, target },
            RGate::StorageSwap { storage, lane, addr, target } => RGateView::StorageSwap {
                storage,
                lane,
                addr: addr@,
                target,
            },
            RGate::XorLut2 { controls, target, table } => RGateView::XorLut2 {
                control0: controls@[0],
                control1: controls@[1],
                target,
                table,
            },
            RGate::ExternalXor { kind, name, args, target, bit, occurrence } =>
            RGateView::ExternalXor {
                kind,
                name: name@,
                args: args@,
                target,
                bit,
                occurrence,
            },
            RGate::ExternalStorageXor {
                name,
                guard,
                args,
                fallback,
                storage,
                lane,
                addr,
                bit,
                occurrence,
            } => RGateView::ExternalStorageXor {
                name: name@,
                guard,
                args: args@,
                fallback,
                storage,
                lane,
                addr: addr@,
                bit,
                occurrence,
            },
        }
    }
}

impl Clone for RGate {
    fn clone(&self) -> (r: Self)
        ensures
            r@ == self@,
    {
        match self {
            RGate::X(w) => RGate::X(*w),
            RGate::Cnot { ctrl, target } => RGate::Cnot { ctrl: *ctrl, target: *target },
            RGate::Ccnot { c1, c2, target } => RGate::Ccnot { c1: *c1, c2: *c2, target: *target },
            RGate::StorageSwap { storage, lane, addr, target } => RGate::StorageSwap {
                storage: *storage,
                lane: *lane,
                addr: addr.clone(),
                target: *target,
            },
            RGate::XorLut2 { controls, target, table } => RGate::XorLut2 {
                controls: [controls[0], controls[1]],
                target: *target,
                table: *table,
            },
            RGate::ExternalXor { kind, name, args, target, bit, occurrence } => RGate::ExternalXor {
                kind: *kind,
                name: name.clone(),
                args: args.clone(),
                target: *target,
                bit: *bit,
                occurrence: *occurrence,
            },
            RGate::ExternalStorageXor {
                name,
                guard,
                args,
                fallback,
                storage,
                lane,
                addr,
                bit,
                occurrence,
            } => RGate::ExternalStorageXor {
                name: name.clone(),
                guard: *guard,
                args: args.clone(),
                fallback: *fallback,
                storage: *storage,
                lane: *lane,
                addr: addr.clone(),
                bit: *bit,
                occurrence: *occurrence,
            },
        }
    }
}

// ---------------------------------------------------------------------------
// External sources
// ---------------------------------------------------------------------------

/// The bits that replayable external sources yield.
#[verifier::ext_equal]
pub struct ExternalSource {
    /// By name, inputs, bit index and occurrence.
    pub oracle: spec_fn(Seq<char>, Seq<bool>, usize, u64) -> bool,
    /// By name, bit index and occurrence.
    pub rng: spec_fn(Seq<char>, usize, u64) -> bool,
    /// By name, inputs, bit index and occurrence.
    pub action: spec_fn(Seq<char>, Seq<bool>, usize, u64) -> bool,
}

/// Replayable external sources.
///
/// Implementations return the same bit whenever they are asked with the same
/// name, inputs, bit index and occurrence.
pub trait ReversibleExternalRegistry {
    /// The bits that this registry yields.
    spec fn source(&self) -> ExternalSource;

    /// One output bit of an oracle.
    fn oracle_bit(&mut self, name: &str, args: &[bool], bit: usize, occurrence: u64) -> (r: bool)
        ensures
            final(self).source() == old(self).source(),
            r == (old(self).source().oracle)(name@, args@, bit, occurrence),
    ;

    /// One bit of a random source.
    fn rng_bit(&mut self, name: &str, bit: usize, occurrence: u64) -> (r: bool)
        ensures
            final(self).source() == old(self).source(),
            r == (old(self).source().rng)(name@, bit, occurrence),
    ;

    /// One output bit of an action.
    fn action_bit(&mut self, name: &str, args: &[bool], bit: usize, occurrence: u64) -> (r: bool)
        ensures
            final(self).source() == old(self).source(),
            r == (old(self).source().action)(name@, args@, bit, occurrence),
    ;
}

// ---------------------------------------------------------------------------
// Storage
// ---------------------------------------------------------------------------

/// A storage cell: its space and lane, and its index there.
pub type CellKey = ((StorageId, LaneId), u64);

/// The stored bits of a circuit evaluation. A cell that holds nothing counts
/// as holding `false`.
#[derive(Debug)]
pub struct StorageState {
    cells: Vec<(CellKey, bool)>,
}

impl View for StorageState {
    type V = Map<CellKey, bool>;

    closed spec fn view(&self) -> Map<CellKey, bool> {
        Map::new(
            |k: CellKey| exists|i: int| 0 <= i < self.cells@.len() && (#[trigger] self.cells@[i]).0 == k,
            |k: CellKey|
                self.cells@[choose|i: int|
                    0 <= i < self.cells@.len() && (#[trigger] self.cells@[i]).0 == k].1,
        )
    }
}

/// The bit that a cell holds, `false` where it holds nothing.
pub open spec fn cell_bit(cells: Map<CellKey, bool>, k: CellKey) -> bool {
    cells.dom().contains(k) && cells[k]
}

/// Whether two cell keys are the same.
fn same_cell(a: &CellKey, b: &CellKey) -> (r: bool)
    ensures
        r == (*a == *b),
{
    (a.0).0 == (b.0).0 && (a.0).1 == (b.0).1 && a.1 == b.1
}

impl StorageState {
    #[verifier::type_invariant]
    spec fn no_duplicates(&self) -> bool {
        forall|i: int, j: int|
            #![trigger self.cells@[i], self.cells@[j]]
            0 <= i < self.cells@.len() && 0 <= j < self.cells@.len() && self.cells@[i].0
                == self.cells@[j].0 ==> i == j
    }

    /// Storage that holds nothing.
    pub fn new() -> (r: Self)
        ensures
            r@ == Map::<CellKey, bool>::empty(),
    {
        let r = StorageState { cells: Vec::new() };
        assert(r@ =~= Map::<CellKey, bool>::empty());
        r
    }

    /// The position of a cell, or the number of cells held.
    fn find(&self, k: &CellKey) -> (i: usize)
        ensures
            i <= self.cells@.len(),
            i < self.cells@.len() ==> self.cells@[i as int].0 == *k,
            i == self.cells@.len() ==> forall|j: int|
                0 <= j < self.cells@.len() ==> (#[trigger] self.cells@[j]).0 != *k,
    {
        let mut i: usize = 0;
        while i < self.cells.len()
            invariant
                i <= self.cells@.len(),
                forall|j: int| 0 <= j < i ==> (#[trigger] self.cells@[j]).0 != *k,
            decreases self.cells.len() - i,
        {
            if same_cell(&self.cells[i].0, k) {
                return i;
            }
            i += 1;
        }
        i
    }

    /// The bit held by a cell, if it holds one.
    pub fn get(&self, k: &CellKey) -> (r: Option<bool>)
        ensures
            r == (if self@.dom().contains(*k) {
                Some(self@[*k])
            } else {
                None
            }),
    {
        proof {
            use_type_invariant(self);
        }
        let i = self.find(k);
        if i < self.cells.len() {
            assert(self@.dom().contains(*k));
            Some(self.cells[i].1)
        } else {
            None
        }
    }

    /// Let a cell hold a bit.
    pub fn insert(&mut self, k: CellKey, bit: bool)
        ensures
            final(self)@ == old(self)@.insert(k, bit),
    {
        proof {
            use_type_invariant(&*self);
        }
        let i = self.find(&k);
        let mut cells: Vec<(CellKey, bool)> = Vec::new();
        std::mem::swap(&mut cells, &mut self.cells);
        let ghost before = cells@;
        if i < cells.len() {
            cells.set(i, (k, bit));
            assert forall|a: int, b: int|
                #![trigger cells@[a], cells@[b]]
                0 <= a < cells@.len() && 0 <= b < cells@.len() && cells@[a].0
                    == cells@[b].0 implies a == b by {
                assert(cells@[a].0 == before[a].0 && cells@[b].0 == before[b].0);
            }
        } else {
            cells.push((k, bit));
        }
        let r = StorageState { cells };
        proof {
            let o = old(self)@;
            let n = r@;
            assert forall|q: CellKey| #[trigger] n.dom().contains(q) <==> o.insert(
                k,
                bit,
            ).dom().contains(q) by {
                if q == k {
                    assert(r.cells@[i as int].0 == k);
                } else {
                    if n.dom().contains(q) {
                        let j = choose|j: int|
                            0 <= j < r.cells@.len() && (#[trigger] r.cells@[j]).0 == q;
                        assert(before[j].0 == q);
                    }
                    if o.dom().contains(q) {
                        let j = choose|j: int| 0 <= j < before.len() && (#[trigger] before[j]).0 == q;
                        assert(r.cells@[j].0 == q);
                    }
                }
            }
            assert forall|q: CellKey| n.dom().contains(q) implies #[trigger] n[q] == o.insert(
                k,
                bit,
            )[q] by {
                let j = choose|j: int| 0 <= j < r.cells@.len() && (#[trigger] r.cells@[j]).0 == q;
                assert(r.cells@[j].0 == q);
                if q == k {
                    assert(r.cells@[i as int].0 == k);
                } else {
                    assert(before[j] == r.cells@[j]);
                    let m = choose|m: int| 0 <= m < before.len() && (#[trigger] before[m]).0 == q;
                    assert(before[m].0 == q);
                }
            }
            assert(n =~= o.insert(k, bit));
        }
        *self = r;
    }

    /// Let a cell hold nothing. The result is what it held.
    pub fn remove(&mut self, k: &CellKey) -> (r: Option<bool>)
        ensures
            final(self)@ == old(self)@.remove(*k),
            r == (if old(self)@.dom().contains(*k) {
                Some(old(self)@[*k])
            } else {
                None
            }),
    {
        proof {
            use_type_invariant(&*self);
        }
        let held = self.get(k);
        let i = self.find(k);
        if i == self.cells.len() {
            assert(self@ =~= old(self)@.remove(*k));
            return held;
        }
        let mut cells: Vec<(CellKey, bool)> = Vec::new();
        std::mem::swap(&mut cells, &mut self.cells);
        let ghost before = cells@;
        cells.remove(i);
        assert forall|a: int, b: int|
            #![trigger cells@[a], cells@[b]]
            0 <= a < cells@.len() && 0 <= b < cells@.len() && cells@[a].0
                == cells@[b].0 implies a == b by {
            let a2 = if a < i { a } else { a + 1 };
            let b2 = if b < i { b } else { b + 1 };
            assert(cells@[a] == before[a2] && cells@[b] == before[b2]);
        }
        let r = StorageState { cells };
        proof {
            let o = old(self)@;
            let n = r@;
            assert forall|q: CellKey| #[trigger] n.dom().contains(q) <==> o.remove(
                *k,
            ).dom().contains(q) by {
                if n.dom().contains(q) {
                    let j = choose|j: int| 0 <= j < r.cells@.len() && (#[trigger] r.cells@[j]).0 == q;
                    let j2 = if j < i { j } else { j + 1 };
                    assert(before[j2] == r.cells@[j]);
                    assert(before[i as int].0 == *k);
                }
                if o.remove(*k).dom().contains(q) {
                    let j = choose|j: int| 0 <= j < before.len() && (#[trigger] before[j]).0 == q;
                    assert(j != i);
                    let j2 = if j < i { j } else { j - 1 };
                    assert(r.cells@[j2].0 == q);
                }
            }
            assert forall|q: CellKey| n.dom().contains(q) implies #[trigger] n[q] == o.remove(
                *k,
            )[q] by {
                let j = choose|j: int| 0 <= j < r.cells@.len() && (#[trigger] r.cells@[j]).0 == q;
                let j2 = if j < i { j } else { j + 1 };
                assert(before[j2] == r.cells@[j]);
                let m = choose|m: int| 0 <= m < before.len() && (#[trigger] before[m]).0 == q;
                assert(before[m].0 == q);
            }
            assert(n =~= o.remove(*k));
        }
        *self = r;
        held
    }
}

// ---------------------------------------------------------------------------
// Validity
// ---------------------------------------------------------------------------

/// Why a circuit is not well formed, or cannot be used as asked.
#[derive(Clone, Copy, PartialEq, Eq, Debug, Structural)]
pub enum RCircuitError {
    /// A gate names a wire that the circuit does not have.
    IndexOutOfRange { gate: usize, wire: usize },
    /// A control or address wire is also the target.
    TargetAliased { gate: usize, wire: usize },
    /// Both controls of a lookup gate are the same wire.
    ControlAliased { gate: usize, wire: usize },
    /// A lookup table has more than four bits.
    InvalidTruthTable { gate: usize, table: u8 },
    /// A storage address has more than 64 bits.
    AddressTooWide { gate: usize, width: usize },
    /// Two circuits over different numbers of wires were composed.
    WireCountMismatch { lhs: usize, rhs: usize },
    /// The circuit uses storage.
    StorageOpsUnsupported,
    /// The circuit uses external sources.
    ExternalOpsUnsupported,
}

impl RCircuitError {
    /// The text of the error.
    pub open spec fn text(self) -> Seq<char> {
        match self {
            RCircuitError::IndexOutOfRange { gate, wire } => "gate "@ + dec(gate as nat)
                + " references wire "@ + dec(wire as nat) + " out of range"@,
            RCircuitError::TargetAliased { gate, wire } => "gate "@ + dec(gate as nat)
                + " aliases control/address wire "@ + dec(wire as nat) + " with its target"@,
            RCircuitError::ControlAliased { gate, wire } => "gate "@ + dec(gate as nat)
                + " uses wire "@ + dec(wire as nat) + " for both lookup controls"@,
            RCircuitError::InvalidTruthTable { gate, table } => "gate "@ + dec(gate as nat)
                + " has invalid two-input truth table 0x"@ + (if table < 16 {
                "0"@
            } else {
                ""@
            }) + hex(table as nat),
            RCircuitError::AddressTooWide { gate, width } => "gate "@ + dec(gate as nat)
                + " has a "@ + dec(width as nat) + "-bit storage address (max 64)"@,
            RCircuitError::WireCountMismatch { lhs, rhs } => "cannot compose circuits with "@ + dec(
                lhs as nat,
            ) + " and "@ + dec(rhs as nat) + " wires"@,
            RCircuitError::StorageOpsUnsupported =>
            "circuit references storage; use `apply` with a StorageState"@,
            RCircuitError::ExternalOpsUnsupported =>
            "circuit references external sources; use `apply_with_externals`"@,
        }
    }

    /// The text of the error.
    pub fn message(&self) -> (r: String)
        ensures
            r@ == self.text(),
    {
        let mut s = String::new();
        match self {
            RCircuitError::IndexOutOfRange { gate, wire } => {
                s.push_str("gate ");
                push_dec(&mut s, *gate as u128);
                s.push_str(" references wire ");
                push_dec(&mut s, *wire as u128);
                s.push_str(" out of range");
            },
            RCircuitError::TargetAliased { gate, wire } => {
                s.push_str("gate ");
                push_dec(&mut s, *gate as u128);
                s.push_str(" aliases control/address wire ");
                push_dec(&mut s, *wire as u128);
                s.push_str(" with its target");
            },
            RCircuitError::ControlAliased { gate, wire } => {
                s.push_str("gate ");
                push_dec(&mut s, *gate as u128);
                s.push_str(" uses wire ");
                push_dec(&mut s, *wire as u128);
                s.push_str(" for both lookup controls");
            },
            RCircuitError::InvalidTruthTable { gate, table } => {
                s.push_str("gate ");
                push_dec(&mut s, *gate as u128);
                s.push_str(" has invalid two-input truth table 0x");
                if *table < 16 {
                    s.push_str("0");
                } else {
                    s.push_str("");
                }
                push_hex(&mut s, *table as u128);
            },
            RCircuitError::AddressTooWide { gate, width } => {
                s.push_str("gate ");
                push_dec(&mut s, *gate as u128);
                s.push_str(" has a ");
                push_dec(&mut s, *width as u128);
                s.push_str("-bit storage address (max 64)");
            },
            RCircuitError::WireCountMismatch { lhs, rhs } => {
                s.push_str("cannot compose circuits with ");
                push_dec(&mut s, *lhs as u128);
                s.push_str(" and ");
                push_dec(&mut s, *rhs as u128);
                s.push_str(" wires");
            },
            RCircuitError::StorageOpsUnsupported => {
                s.push_str("circuit references storage; use `apply` with a StorageState");
            },
            RCircuitError::ExternalOpsUnsupported => {
                s.push_str("circuit references external sources; use `apply_with_externals`");
            },
        }
        assert(s@ =~= self.text());
        s
    }
}

/// The first thing wrong in a list of wires read by gate `i`: a wire out of
/// range, or one that is the target.
pub open spec fn wires_error(n: usize, i: usize, wires: Seq<usize>, target: Option<usize>) -> Option<
    RCircuitError,
>
    decreases wires.len(),
{
    if wires.len() == 0 {
        None
    } else if wires[0] >= n {
        Some(RCircuitError::IndexOutOfRange { gate: i, wire: wires[0] })
    } else if target == Some(wires[0]) {
        Some(RCircuitError::TargetAliased { gate: i, wire: wires[0] })
    } else {
        wires_error(n, i, wires.drop_first(), target)
    }
}

/// The first of two findings.
pub open spec fn first_of(a: Option<RCircuitError>, b: Option<RCircuitError>) -> Option<
    RCircuitError,
> {
    match a {
        Some(e) => Some(e),
        None => b,
    }
}

/// A finding that holds under a condition.
pub open spec fn finding(c: bool, e: RCircuitError) -> Option<RCircuitError> {
    if c {
        Some(e)
    } else {
        None
    }
}

/// What is wrong with gate `i` in a circuit of `n` wires: first its wires, in
/// the order in which they stand there, then how they are used.
pub open spec fn gate_error(n: usize, i: usize, gate: RGateView) -> Option<RCircuitError> {
    match gate {
        RGateView::X(w) => wires_error(n, i, seq![w], None),
        RGateView::Cnot { ctrl, target } => first_of(
            wires_error(n, i, seq![ctrl, target], None),
            finding(ctrl == target, RCircuitError::TargetAliased { gate: i, wire: ctrl }),
        ),
        RGateView::Ccnot { c1, c2, target } => first_of(
            wires_error(n, i, seq![c1, c2, target], None),
            finding(
                target == c1 || target == c2,
                RCircuitError::TargetAliased { gate: i, wire: target },
            ),
        ),
        RGateView::XorLut2 { control0, control1, target, table } => first_of(
            wires_error(n, i, seq![control0, control1, target], None),
            first_of(
                finding(
                    target == control0 || target == control1,
                    RCircuitError::TargetAliased { gate: i, wire: target },
                ),
                first_of(
                    finding(
                        control0 == control1,
                        RCircuitError::ControlAliased { gate: i, wire: control0 },
                    ),
                    finding(table >= 16, RCircuitError::InvalidTruthTable { gate: i, table }),
                ),
            ),
        ),
        RGateView::StorageSwap { addr, target, .. } => first_of(
            wires_error(n, i, seq![target], None),
            first_of(
                wires_error(n, i, addr, Some(target)),
                finding(
                    addr.len() > 64,
                    RCircuitError::AddressTooWide { gate: i, width: addr.len() as usize },
                ),
            ),
        ),
        RGateView::ExternalXor { args, target, .. } => first_of(
            wires_error(n, i, seq![target], None),
            wires_error(n, i, args, Some(target)),
        ),
        RGateView::ExternalStorageXor { guard, args, fallback, addr, .. } => first_of(
            wires_error(n, i, seq![guard, fallback] + args + addr, None),
            finding(
                addr.len() > 64,
                RCircuitError::AddressTooWide { gate: i, width: addr.len() as usize },
            ),
        ),
    }
}

/// The views of a list of gates.
pub open spec fn gate_views(s: Seq<RGate>) -> Seq<RGateView> {
    s.map_values(|g: RGate| g@)
}

/// What is wrong with the first faulty gate at or after position `from`.
pub open spec fn gates_error(n: usize, gates: Seq<RGateView>, from: int) -> Option<RCircuitError>
    decreases gates.len() - from,
{
    if from < 0 || from >= gates.len() {
        None
    } else {
        match gate_error(n, from as usize, gates[from]) {
            Some(e) => Some(e),
            None => gates_error(n, gates, from + 1),
        }
    }
}

/// The finding on a list of wires depends on its first faulty part.
proof fn lemma_wires_error_concat(
    n: usize,
    i: usize,
    a: Seq<usize>,
    b: Seq<usize>,
    target: Option<usize>,
)
    ensures
        wires_error(n, i, a + b, target) == first_of(
            wires_error(n, i, a, target),
            wires_error(n, i, b, target),
        ),
    decreases a.len(),
{
    if a.len() == 0 {
        assert(a + b == b);
    } else {
        lemma_wires_error_concat(n, i, a.drop_first(), b, target);
        assert((a + b).drop_first() == a.drop_first() + b);
    }
}

/// A list of wires is free of findings exactly if each wire is in range and
/// none is the target.
pub proof fn lemma_wires_error_none(n: usize, i: usize, wires: Seq<usize>, target: Option<usize>)
    ensures
        wires_error(n, i, wires, target) is None <==> forall|j: int|
            0 <= j < wires.len() ==> (#[trigger] wires[j]) < n && target != Some(wires[j]),
    decreases wires.len(),
{
    if wires.len() > 0 {
        let rest = wires.drop_first();
        lemma_wires_error_none(n, i, rest, target);
        if wires_error(n, i, wires, target) is None {
            assert forall|j: int| 0 <= j < wires.len() implies (#[trigger] wires[j]) < n && target
                != Some(wires[j]) by {
                if j > 0 {
                    assert(wires[j] == rest[j - 1]);
                }
            }
        } else if forall|j: int|
            0 <= j < wires.len() ==> (#[trigger] wires[j]) < n && target != Some(wires[j]) {
            assert(wires[0] < n);
            assert forall|j: int| 0 <= j < rest.len() implies (#[trigger] rest[j]) < n && target
                != Some(rest[j]) by {
                assert(rest[j] == wires[j + 1]);
            }
        }
    }
}

/// A reversible circuit.
#[derive(PartialEq, Eq, PartialOrd, Ord, Hash, Debug)]
pub struct RCircuit {
    pub num_wires: usize,
    pub gates: Vec<RGate>,
}

impl Clone for RCircuit {
    fn clone(&self) -> (r: Self)
        ensures
            r.num_wires == self.num_wires,
            gate_views(r.gates@) == gate_views(self.gates@),
    {
        RCircuit { num_wires: self.num_wires, gates: clone_gates(&self.gates) }
    }
}

/// A copy of a gate list.
fn clone_gates(gates: &Vec<RGate>) -> (r: Vec<RGate>)
    ensures
        gate_views(r@) == gate_views(gates@),
{
    let mut out: Vec<RGate> = Vec::new();
    let mut i: usize = 0;
    while i < gates.len()
        invariant
            i <= gates.len(),
            out@.len() == i,
            forall|j: int| 0 <= j < i ==> (#[trigger] out@[j])@ == gates@[j]@,
        decreases gates.len() - i,
    {
        out.push(gates[i].clone());
        i += 1;
    }
    assert(gate_views(out@) =~= gate_views(gates@));
    out
}

/// The first thing wrong in a list of wires read by gate `i`.
fn check_wires(n: usize, i: usize, wires: &Vec<usize>, target: Option<usize>) -> (r: Result<
    (),
    RCircuitError,
>)
    ensures
        match r {
            Ok(_) => wires_error(n, i, wires@, target) is None,
            Err(e) => wires_error(n, i, wires@, target) == Some(e),
        },
{
    let mut j: usize = 0;
    assert(wires@.skip(0) == wires@);
    while j < wires.len()
        invariant
            j <= wires.len(),
            wires_error(n, i, wires@, target) == wires_error(n, i, wires@.skip(j as int), target),
        decreases wires.len() - j,
    {
        let w: usize = wires[j];
        assert(wires@.skip(j as int)[0] == w);
        assert(wires@.skip(j as int).drop_first() == wires@.skip(j + 1));
        if w >= n {
            return Err(RCircuitError::IndexOutOfRange { gate: i, wire: w });
        }
        match target {
            Some(t) => {
                if t == w {
                    return Err(RCircuitError::TargetAliased { gate: i, wire: w });
                }
            },
            None => {},
        }
        j += 1;
    }
    Ok(())
}

impl RCircuit {
    /// The gates.
    pub open spec fn gate_list(&self) -> Seq<RGateView> {
        gate_views(self.gates@)
    }

    /// Whether every gate is in order.
    pub open spec fn wf(&self) -> bool {
        circuit_wf(self.num_wires, self.gate_list())
    }

    /// What is wrong with the circuit, if anything is: the finding on its
    /// first faulty gate.
    pub open spec fn error(&self) -> Option<RCircuitError> {
        gates_error(self.num_wires, self.gate_list(), 0)
    }

    /// A circuit of these gates, if all of them are in order.
    pub fn new(num_wires: usize, gates: Vec<RGate>) -> (r: Result<Self, RCircuitError>)
        ensures
            match r {
                Ok(c) => c.num_wires == num_wires && c.gates == gates && c.wf() && gates_error(
                    num_wires,
                    gate_views(gates@),
                    0,
                ) is None,
                Err(e) => gates_error(num_wires, gate_views(gates@), 0) == Some(e),
            },
    {
        let circuit = RCircuit { num_wires, gates };
        match circuit.validate() {
            Ok(_) => {
                proof {
                    lemma_gates_error(num_wires, circuit.gate_list(), 0);
                }
                Ok(circuit)
            },
            Err(e) => Err(e),
        }
    }

    /// A circuit without gates.
    pub fn empty(num_wires: usize) -> (r: Self)
        ensures
            r.num_wires == num_wires,
            r.gate_list() == Seq::<RGateView>::empty(),
            r.wf(),
    {
        let r = RCircuit { num_wires, gates: Vec::new() };
        assert(r.gate_list() =~= Seq::<RGateView>::empty());
        r
    }

    /// The gates, in order.
    pub fn gates(&self) -> (r: &[RGate])
        ensures
            r@ == self.gates@,
    {
        self.gates.as_slice()
    }

    /// Check every gate.
    pub fn validate(&self) -> (r: Result<(), RCircuitError>)
        ensures
            match r {
                Ok(_) => self.error() is None,
                Err(e) => self.error() == Some(e),
            },
    {
        let mut i: usize = 0;
        while i < self.gates.len()
            invariant
                i <= self.gates.len(),
                self.error() == gates_error(self.num_wires, self.gate_list(), i as int),
            decreases self.gates.len() - i,
        {
            assert(self.gate_list()[i as int] == self.gates@[i as int]@);
            match self.validate_gate_at(i, &self.gates[i]) {
                Ok(_) => {},
                Err(e) => {
                    return Err(e);
                },
            }
            i += 1;
        }
        Ok(())
    }

    /// Check a gate as gate `i` of this circuit.
    pub fn validate_gate_at(&self, i: usize, gate: &RGate) -> (r: Result<(), RCircuitError>)
        ensures
            match r {
                Ok(_) => gate_error(self.num_wires, i, gate@) is None,
                Err(e) => gate_error(self.num_wires, i, gate@) == Some(e),
            },
    {
        let n = self.num_wires;
        proof {
            reveal_with_fuel(wires_error, 4);
        }
        match gate {
            RGate::X(w) => {
                if *w >= n {
                    return Err(RCircuitError::IndexOutOfRange { gate: i, wire: *w });
                }
                Ok(())
            },
            RGate::Cnot { ctrl, target } => {
                assert(seq![*ctrl, *target].drop_first() =~= seq![*target]);
                if *ctrl >= n {
                    return Err(RCircuitError::IndexOutOfRange { gate: i, wire: *ctrl });
                }
                if *target >= n {
                    return Err(RCircuitError::IndexOutOfRange { gate: i, wire: *target });
                }
                if *ctrl == *target {
                    return Err(RCircuitError::TargetAliased { gate: i, wire: *ctrl });
                }
                Ok(())
            },
            RGate::Ccnot { c1, c2, target } => {
                assert(seq![*c1, *c2, *target].drop_first() =~= seq![*c2, *target]);
                assert(seq![*c2, *target].drop_first() =~= seq![*target]);
                if *c1 >= n {
                    return Err(RCircuitError::IndexOutOfRange { gate: i, wire: *c1 });
                }
                if *c2 >= n {
                    return Err(RCircuitError::IndexOutOfRange { gate: i, wire: *c2 });
                }
                if *target >= n {
                    return Err(RCircuitError::IndexOutOfRange { gate: i, wire: *target });
                }
                if *target == *c1 || *target == *c2 {
                    return Err(RCircuitError::TargetAliased { gate: i, wire: *target });
                }
                Ok(())
            },
            RGate::XorLut2 { controls, target, table } => {
                let a: usize = controls[0];
                let b: usize = controls[1];
                assert(seq![a, b, *target].drop_first() =~= seq![b, *target]);
                assert(seq![b, *target].drop_first() =~= seq![*target]);
                if a >= n {
                    return Err(RCircuitError::IndexOutOfRange { gate: i, wire: a });
                }
                if b >= n {
                    return Err(RCircuitError::IndexOutOfRange { gate: i, wire: b });
                }
                if *target >= n {
                    return Err(RCircuitError::IndexOutOfRange { gate: i, wire: *target });
                }
                if *target == a || *target == b {
                    return Err(RCircuitError::TargetAliased { gate: i, wire: *target });
                }
                if a == b {
                    return Err(RCircuitError::ControlAliased { gate: i, wire: a });
                }
                if *table > 0x0f {
                    return Err(RCircuitError::InvalidTruthTable { gate: i, table: *table });
                }
                Ok(())
            },
            RGate::StorageSwap { addr, target, .. } => {
                if *target >= n {
                    return Err(RCircuitError::IndexOutOfRange { gate: i, wire: *target });
                }
                match check_wires(n, i, addr, Some(*target)) {
                    Ok(_) => {},
                    Err(e) => {
                        return Err(e);
                    },
                }
                if addr.len() > 64 {
                    return Err(RCircuitError::AddressTooWide { gate: i, width: addr.len() });
                }
                Ok(())
            },
            RGate::ExternalXor { args, target, .. } => {
                if *target >= n {
                    return Err(RCircuitError::IndexOutOfRange { gate: i, wire: *target });
                }
                check_wires(n, i, args, Some(*target))
            },
            RGate::ExternalStorageXor { guard, args, fallback, addr, .. } => {
                proof {
                    lemma_wires_error_concat(n, i, seq![*guard, *fallback] + args@, addr@, None);
                    lemma_wires_error_concat(n, i, seq![*guard, *fallback], args@, None);
                    assert(seq![*guard, *fallback].drop_first() =~= seq![*fallback]);
                }
                if *guard >= n {
                    return Err(RCircuitError::IndexOutOfRange { gate: i, wire: *guard });
                }
                if *fallback >= n {
                    return Err(RCircuitError::IndexOutOfRange { gate: i, wire: *fallback });
                }
                match check_wires(n, i, args, None) {
                    Ok(_) => {},
                    Err(e) => {
                        return Err(e);
                    },
                }
                match check_wires(n, i, addr, None) {
                    Ok(_) => {},
                    Err(e) => {
                        return Err(e);
                    },
                }
                if addr.len() > 64 {
                    return Err(RCircuitError::AddressTooWide { gate: i, width: addr.len() });
                }
                Ok(())
            },
        }
    }
}

/// Whether every gate of a list is in order, over `n` wires.
pub open spec fn circuit_wf(n: usize, gates: Seq<RGateView>) -> bool {
    forall|i: int| 0 <= i < gates.len() ==> gate_ok(n, #[trigger] gates[i])
}

/// Whether a gate is in order, over `n` wires.
pub open spec fn gate_ok(n: usize, g: RGateView) -> bool {
    gate_error(n, 0, g) is None
}

/// Whether a gate is in order does not depend on its position.
proof fn lemma_gate_error_position(n: usize, i: usize, j: usize, g: RGateView)
    ensures
        gate_error(n, i, g) is None <==> gate_error(n, j, g) is None,
{
    match g {
        RGateView::X(w) => {
            lemma_wires_error_none(n, i, seq![w], None);
            lemma_wires_error_none(n, j, seq![w], None);
        },
        RGateView::Cnot { ctrl, target } => {
            lemma_wires_error_none(n, i, seq![ctrl, target], None);
            lemma_wires_error_none(n, j, seq![ctrl, target], None);
        },
        RGateView::Ccnot { c1, c2, target } => {
            lemma_wires_error_none(n, i, seq![c1, c2, target], None);
            lemma_wires_error_none(n, j, seq![c1, c2, target], None);
        },
        RGateView::XorLut2 { control0, control1, target, table } => {
            lemma_wires_error_none(n, i, seq![control0, control1, target], None);
            lemma_wires_error_none(n, j, seq![control0, control1, target], None);
        },
        RGateView::StorageSwap { addr, target, .. } => {
            lemma_wires_error_none(n, i, seq![target], None);
            lemma_wires_error_none(n, j, seq![target], None);
            lemma_wires_error_none(n, i, addr, Some(target));
            lemma_wires_error_none(n, j, addr, Some(target));
        },
        RGateView::ExternalXor { args, target, .. } => {
            lemma_wires_error_none(n, i, seq![target], None);
            lemma_wires_error_none(n, j, seq![target], None);
            lemma_wires_error_none(n, i, args, Some(target));
            lemma_wires_error_none(n, j, args, Some(target));
        },
        RGateView::ExternalStorageXor { guard, args, fallback, addr, .. } => {
            lemma_wires_error_none(n, i, seq![guard, fallback] + args + addr, None);
            lemma_wires_error_none(n, j, seq![guard, fallback] + args + addr, None);
        },
    }
}

/// A gate list is free of findings exactly if every gate is in order.
pub proof fn lemma_gates_error(n: usize, gates: Seq<RGateView>, from: int)
    requires
        0 <= from <= gates.len(),
    ensures
        gates_error(n, gates, from) is None <==> forall|i: int|
            from <= i < gates.len() ==> gate_ok(n, #[trigger] gates[i]),
    decreases gates.len() - from,
{
    if from < gates.len() {
        lemma_gate_error_position(n, from as usize, 0, gates[from]);
        lemma_gates_error(n, gates, from + 1);
        assert(gate_ok(n, gates[from]) <==> gate_error(n, from as usize, gates[from]) is None);
    }
}

// ---------------------------------------------------------------------------
// Evaluation
// ---------------------------------------------------------------------------

/// The state that a circuit acts on.
#[verifier::ext_equal]
pub struct RState {
    pub wires: Seq<bool>,
    pub cells: Map<CellKey, bool>,
}

/// The number that address wires give, least significant bit first.
pub open spec fn addr_value(addr: Seq<usize>, wires: Seq<bool>) -> nat
    decreases addr.len(),
{
    if addr.len() == 0 {
        0
    } else {
        (if wires[addr[0] as int] {
            1nat
        } else {
            0nat
        }) + 2 * addr_value(addr.drop_first(), wires)
    }
}

/// The entry of a two-input truth table.
pub open spec fn lut_bit(table: u8, a: bool, b: bool) -> bool {
    match (a, b) {
        (false, false) => table & 8 != 0,
        (false, true) => table & 4 != 0,
        (true, false) => table & 2 != 0,
        (true, true) => table & 1 != 0,
    }
}

/// The bits on a list of wires.
pub open spec fn wire_bits(list: Seq<usize>, wires: Seq<bool>) -> Seq<bool> {
    list.map_values(|w: usize| wires[w as int])
}

/// The cell that a storage gate addresses.
pub open spec fn addressed_cell(
    storage: StorageId,
    lane: LaneId,
    addr: Seq<usize>,
    wires: Seq<bool>,
) -> CellKey {
    ((storage, lane), addr_value(addr, wires) as u64)
}

/// What one gate does, given what the external sources yield.
pub open spec fn gate_step(g: RGateView, s: RState, src: ExternalSource) -> RState {
    let w = s.wires;
    match g {
        RGateView::X(t) => RState { wires: w.update(t as int, !w[t as int]), ..s },
        RGateView::Cnot { ctrl, target } => RState {
            wires: w.update(target as int, w[target as int] != w[ctrl as int]),
            ..s
        },
        RGateView::Ccnot { c1, c2, target } => RState {
            wires: w.update(target as int, w[target as int] != (w[c1 as int] && w[c2 as int])),
            ..s
        },
        RGateView::XorLut2 { control0, control1, target, table } => RState {
            wires: w.update(
                target as int,
                w[target as int] != lut_bit(table, w[control0 as int], w[control1 as int]),
            ),
            ..s
        },
        RGateView::StorageSwap { storage, lane, addr, target } => {
            let k = addressed_cell(storage, lane, addr, w);
            RState {
                wires: w.update(target as int, cell_bit(s.cells, k)),
                cells: s.cells.insert(k, w[target as int]),
            }
        },
        RGateView::ExternalXor { kind, name, args, target, bit, occurrence } => {
            let v = match kind {
                RExternalKind::Oracle => (src.oracle)(name, wire_bits(args, w), bit, occurrence),
                RExternalKind::Rng => (src.rng)(name, bit, occurrence),
            };
            RState { wires: w.update(target as int, w[target as int] != v), ..s }
        },
        RGateView::ExternalStorageXor {
            name,
            guard,
            args,
            fallback,
            storage,
            lane,
            addr,
            bit,
            occurrence,
        } => {
            let v = if w[guard as int] {
                (src.action)(name, wire_bits(args, w), bit, occurrence)
            } else {
                w[fallback as int]
            };
            let k = addressed_cell(storage, lane, addr, w);
            let cells = if cell_bit(s.cells, k) != v {
                s.cells.insert(k, true)
            } else {
                s.cells.remove(k)
            };
            RState { cells, ..s }
        },
    }
}

/// What a gate list does.
pub open spec fn run(gates: Seq<RGateView>, s: RState, src: ExternalSource) -> RState
    decreases gates.len(),
{
    if gates.len() == 0 {
        s
    } else {
        run(gates.drop_first(), gate_step(gates[0], s, src), src)
    }
}

/// Whether a gate can be evaluated on `n` wires: its wires exist and its
/// address fits a cell index.
pub open spec fn gate_runnable(n: nat, g: RGateView) -> bool {
    match g {
        RGateView::X(w) => w < n,
        RGateView::Cnot { ctrl, target } => ctrl < n && target < n,
        RGateView::Ccnot { c1, c2, target } => c1 < n && c2 < n && target < n,
        RGateView::XorLut2 { control0, control1, target, .. } => control0 < n && control1 < n
            && target < n,
        RGateView::StorageSwap { addr, target, .. } => target < n && wires_below(addr, n)
            && addr.len() <= 64,
        RGateView::ExternalXor { args, target, .. } => target < n && wires_below(args, n),
        RGateView::ExternalStorageXor { guard, args, fallback, addr, .. } => guard < n && fallback
            < n && wires_below(args, n) && wires_below(addr, n) && addr.len() <= 64,
    }
}

/// Whether every wire of a list exists.
pub open spec fn wires_below(list: Seq<usize>, n: nat) -> bool {
    forall|j: int| 0 <= j < list.len() ==> (#[trigger] list[j]) < n
}

/// Whether every gate can be evaluated.
pub open spec fn runnable(n: nat, gates: Seq<RGateView>) -> bool {
    forall|i: int| 0 <= i < gates.len() ==> gate_runnable(n, #[trigger] gates[i])
}

/// Whether a gate uses storage.
pub open spec fn gate_uses_storage(g: RGateView) -> bool {
    g is StorageSwap || g is ExternalStorageXor
}

/// Whether a gate uses external sources.
pub open spec fn gate_uses_externals(g: RGateView) -> bool {
    g is ExternalXor || g is ExternalStorageXor
}

/// Whether some gate uses storage.
pub open spec fn gates_use_storage(gates: Seq<RGateView>) -> bool {
    exists|i: int| 0 <= i < gates.len() && gate_uses_storage(#[trigger] gates[i])
}

/// Whether some gate uses external sources.
pub open spec fn gates_use_externals(gates: Seq<RGateView>) -> bool {
    exists|i: int| 0 <= i < gates.len() && gate_uses_externals(#[trigger] gates[i])
}

/// A gate that is in order can be evaluated.
pub proof fn lemma_ok_runnable(n: usize, g: RGateView)
    requires
        gate_ok(n, g),
    ensures
        gate_runnable(n as nat, g),
{
    match g {
        RGateView::X(w) => {
            lemma_wires_error_none(n, 0, seq![w], None);
            assert(seq![w][0] < n);
        },
        RGateView::Cnot { ctrl, target } => {
            lemma_wires_error_none(n, 0, seq![ctrl, target], None);
            assert(seq![ctrl, target][0] < n && seq![ctrl, target][1] < n);
        },
        RGateView::Ccnot { c1, c2, target } => {
            let l = seq![c1, c2, target];
            lemma_wires_error_none(n, 0, l, None);
            assert(l[0] < n && l[1] < n && l[2] < n);
        },
        RGateView::XorLut2 { control0, control1, target, table } => {
            let l = seq![control0, control1, target];
            lemma_wires_error_none(n, 0, l, None);
            assert(l[0] < n && l[1] < n && l[2] < n);
        },
        RGateView::StorageSwap { addr, target, .. } => {
            lemma_wires_error_none(n, 0, seq![target], None);
            assert(seq![target][0] < n);
            lemma_wires_error_none(n, 0, addr, Some(target));
        },
        RGateView::ExternalXor { args, target, .. } => {
            lemma_wires_error_none(n, 0, seq![target], None);
            assert(seq![target][0] < n);
            lemma_wires_error_none(n, 0, args, Some(target));
        },
        RGateView::ExternalStorageXor { guard, args, fallback, addr, .. } => {
            let l = seq![guard, fallback] + args + addr;
            lemma_wires_error_none(n, 0, l, None);
            assert(l[0] < n && l[1] < n);
            assert forall|j: int| 0 <= j < args.len() implies (#[trigger] args[j]) < n by {
                assert(l[j + 2] == args[j]);
            }
            assert forall|j: int| 0 <= j < addr.len() implies (#[trigger] addr[j]) < n by {
                assert(l[j + 2 + args.len()] == addr[j]);
            }
        },
    }
}

/// A circuit whose gates are in order can be evaluated.
pub proof fn law_well_formed_runs(n: usize, gates: Seq<RGateView>)
    requires
        circuit_wf(n, gates),
    ensures
        runnable(n as nat, gates),
{
    assert forall|i: int| 0 <= i < gates.len() implies gate_runnable(
        n as nat,
        #[trigger] gates[i],
    ) by {
        lemma_ok_runnable(n, gates[i]);
    }
}

/// A gate keeps the number of wires.
proof fn lemma_step_len(g: RGateView, s: RState, src: ExternalSource)
    requires
        gate_runnable(s.wires.len(), g),
    ensures
        gate_step(g, s, src).wires.len() == s.wires.len(),
{
}

/// A gate list runs its last gate last.
proof fn lemma_run_push(gates: Seq<RGateView>, g: RGateView, s: RState, src: ExternalSource)
    ensures
        run(gates.push(g), s, src) == gate_step(g, run(gates, s, src), src),
    decreases gates.len(),
{
    let all = gates.push(g);
    if gates.len() == 0 {
        assert(all.drop_first() =~= Seq::<RGateView>::empty());
        reveal_with_fuel(run, 2);
    } else {
        assert(all.drop_first() =~= gates.drop_first().push(g));
        lemma_run_push(gates.drop_first(), g, gate_step(gates[0], s, src), src);
    }
}

/// Address values are below the power of two of the address width.
proof fn lemma_addr_bound(addr: Seq<usize>, wires: Seq<bool>)
    ensures
        addr_value(addr, wires) < pow2(addr.len()),
    decreases addr.len(),
{
    if addr.len() == 0 {
        vstd::arithmetic::power2::lemma2_to64();
    } else {
        lemma_addr_bound(addr.drop_first(), wires);
        lemma_pow2_unfold(addr.len());
    }
}

/// The cell index that address wires give, least significant bit first.
fn addr_cell_index(addr: &Vec<usize>, wires: &Vec<bool>) -> (idx: u64)
    requires
        wires_below(addr@, wires@.len()),
        addr@.len() <= 64,
    ensures
        idx == addr_value(addr@, wires@),
{
    let mut idx: u64 = 0;
    let mut i: usize = addr.len();
    assert(addr@.skip(i as int) =~= Seq::<usize>::empty());
    while i > 0
        invariant
            i <= addr.len(),
            addr@.len() <= 64,
            wires_below(addr@, wires@.len()),
            idx == addr_value(addr@.skip(i as int), wires@),
        decreases i,
    {
        let ghost rest = addr@.skip(i as int);
        let ghost longer = addr@.skip(i - 1);
        proof {
            assert(longer.drop_first() =~= rest);
            assert(longer[0] == addr@[i - 1]);
            lemma_addr_bound(longer, wires@);
            if longer.len() < 64 {
                vstd::arithmetic::power2::lemma_pow2_strictly_increases(longer.len(), 64);
            }
            vstd::arithmetic::power2::lemma2_to64();
            assert(pow2(64) == 0x1_0000_0000_0000_0000);
        }
        i -= 1;
        let bit: u64 = if wires[addr[i]] {
            1
        } else {
            0
        };
        idx = bit + 2 * idx;
    }
    assert(addr@.skip(0) =~= addr@);
    idx
}

/// The entry of a two-input truth table.
fn lut(table: u8, a: bool, b: bool) -> (r: bool)
    ensures
        r == lut_bit(table, a, b),
{
    let input: u8 = (if a {
        2u8
    } else {
        0u8
    }) + (if b {
        1u8
    } else {
        0u8
    });
    let shift: u8 = 3 - input;
    assert(((table >> 3) & 1 == 1) == (table & 8 != 0)) by (bit_vector);
    assert(((table >> 2) & 1 == 1) == (table & 4 != 0)) by (bit_vector);
    assert(((table >> 1) & 1 == 1) == (table & 2 != 0)) by (bit_vector);
    assert(((table >> 0) & 1 == 1) == (table & 1 != 0)) by (bit_vector);
    (table >> shift) & 1 == 1
}

/// The bits on a list of wires.
fn read_wires(list: &Vec<usize>, wires: &Vec<bool>) -> (r: Vec<bool>)
    requires
        wires_below(list@, wires@.len()),
    ensures
        r@ == wire_bits(list@, wires@),
{
    let mut out: Vec<bool> = Vec::new();
    let mut i: usize = 0;
    while i < list.len()
        invariant
            i <= list.len(),
            out@.len() == i,
            wires_below(list@, wires@.len()),
            forall|j: int| 0 <= j < i ==> #[trigger] out@[j] == wires@[list@[j] as int],
        decreases list.len() - i,
    {
        out.push(wires[list[i]]);
        i += 1;
    }
    assert(out@ =~= wire_bits(list@, wires@));
    out
}

/// Perform a gate that reads no external source.
fn apply_gate(gate: &RGate, wires: &mut Vec<bool>, storage: &mut StorageState, src: Ghost<
    ExternalSource,
>)
    requires
        gate_runnable(old(wires)@.len(), gate@),
        !gate_uses_externals(gate@),
    ensures
        (RState { wires: final(wires)@, cells: final(storage)@ }) == gate_step(
            gate@,
            RState { wires: old(wires)@, cells: old(storage)@ },
            src@,
        ),
{
    match gate {
        RGate::X(w) => {
            let v: bool = !wires[*w];
            wires.set(*w, v);
        },
        RGate::Cnot { ctrl, target } => {
            let v: bool = wires[*target] != wires[*ctrl];
            wires.set(*target, v);
        },
        RGate::Ccnot { c1, c2, target } => {
            let v: bool = wires[*target] != (wires[*c1] && wires[*c2]);
            wires.set(*target, v);
        },
        RGate::XorLut2 { controls, target, table } => {
            let v: bool = wires[*target] != lut(*table, wires[controls[0]], wires[controls[1]]);
            wires.set(*target, v);
        },
        RGate::StorageSwap { storage: sid, lane, addr, target } => {
            let cell: CellKey = ((*sid, *lane), addr_cell_index(addr, wires));
            let stored: bool = match storage.remove(&cell) {
                Some(b) => b,
                None => false,
            };
            storage.insert(cell, wires[*target]);
            proof {
                assert(storage@ =~= old(storage)@.insert(cell, wires@[*target as int]));
            }
            wires.set(*target, stored);
        },
        RGate::ExternalXor { .. } => {},
        RGate::ExternalStorageXor { .. } => {},
    }
}

impl RCircuit {
    /// Append a gate, if it is in order.
    pub fn push_gate(&mut self, gate: RGate) -> (r: Result<(), RCircuitError>)
        ensures
            final(self).num_wires == old(self).num_wires,
            match r {
                Ok(_) => gate_ok(old(self).num_wires, gate@) && final(self).gates@ == old(
                    self,
                ).gates@.push(gate),
                Err(e) => gate_error(
                    old(self).num_wires,
                    old(self).gates@.len() as usize,
                    gate@,
                ) == Some(e) && final(self).gates@ == old(self).gates@,
            },
            old(self).wf() ==> final(self).wf(),
    {
        match self.validate_gate_at(self.gates.len(), &gate) {
            Ok(_) => {
                proof {
                    lemma_gate_error_position(
                        self.num_wires,
                        self.gates@.len() as usize,
                        0,
                        gate@,
                    );
                }
                self.gates.push(gate);
                assert(self.gate_list() =~= old(self).gate_list().push(gate@));
                Ok(())
            },
            Err(e) => Err(e),
        }
    }

    /// Whether some gate uses storage.
    pub fn uses_storage(&self) -> (r: bool)
        ensures
            r == gates_use_storage(self.gate_list()),
    {
        let mut i: usize = 0;
        while i < self.gates.len()
            invariant
                i <= self.gates.len(),
                forall|j: int| 0 <= j < i ==> !gate_uses_storage(#[trigger] self.gate_list()[j]),
            decreases self.gates.len() - i,
        {
            let uses = match &self.gates[i] {
                RGate::StorageSwap { .. } => true,
                RGate::ExternalStorageXor { .. } => true,
                _ => false,
            };
            assert(uses == gate_uses_storage(self.gate_list()[i as int]));
            if uses {
                return true;
            }
            i += 1;
        }
        false
    }

    /// Whether some gate uses external sources.
    pub fn uses_externals(&self) -> (r: bool)
        ensures
            r == gates_use_externals(self.gate_list()),
    {
        let mut i: usize = 0;
        while i < self.gates.len()
            invariant
                i <= self.gates.len(),
                forall|j: int| 0 <= j < i ==> !gate_uses_externals(#[trigger] self.gate_list()[j]),
            decreases self.gates.len() - i,
        {
            let uses = match &self.gates[i] {
                RGate::ExternalXor { .. } => true,
                RGate::ExternalStorageXor { .. } => true,
                _ => false,
            };
            assert(uses == gate_uses_externals(self.gate_list()[i as int]));
            if uses {
                return true;
            }
            i += 1;
        }
        false
    }

    /// Run the circuit on a wire vector and storage. What external sources
    /// yield does not matter, since no gate reads one.
    pub fn apply(&self, wires: &mut Vec<bool>, storage: &mut StorageState)
        requires
            old(wires)@.len() == self.num_wires,
            runnable(self.num_wires as nat, self.gate_list()),
            !gates_use_externals(self.gate_list()),
        ensures
            final(wires)@.len() == self.num_wires,
            forall|src: ExternalSource|
                (RState { wires: final(wires)@, cells: final(storage)@ }) == #[trigger] run(
                    self.gate_list(),
                    RState { wires: old(wires)@, cells: old(storage)@ },
                    src,
                ),
    {
        let ghost start = RState { wires: wires@, cells: storage@ };
        let ghost gs = self.gate_list();
        let mut i: usize = 0;
        while i < self.gates.len()
            invariant
                i <= self.gates.len(),
                gs == self.gate_list(),
                wires@.len() == self.num_wires,
                runnable(self.num_wires as nat, gs),
                !gates_use_externals(gs),
                forall|src: ExternalSource|
                    (RState { wires: wires@, cells: storage@ }) == #[trigger] run(
                        gs.take(i as int),
                        start,
                        src,
                    ),
            decreases self.gates.len() - i,
        {
            let ghost before = RState { wires: wires@, cells: storage@ };
            let ghost any = ExternalSource {
                oracle: |n: Seq<char>, a: Seq<bool>, b: usize, o: u64| false,
                rng: |n: Seq<char>, b: usize, o: u64| false,
                action: |n: Seq<char>, a: Seq<bool>, b: usize, o: u64| false,
            };
            assert(gs[i as int] == self.gates@[i as int]@);
            assert(!gate_uses_externals(gs[i as int]));
            apply_gate(&self.gates[i], wires, storage, Ghost(any));
            proof {
                let after = RState { wires: wires@, cells: storage@ };
                assert forall|src: ExternalSource| after == #[trigger] run(
                    gs.take(i + 1),
                    start,
                    src,
                ) by {
                    assert(gs.take(i + 1) =~= gs.take(i as int).push(gs[i as int]));
                    lemma_run_push(gs.take(i as int), gs[i as int], start, src);
                    assert(gate_step(gs[i as int], before, src) == gate_step(
                        gs[i as int],
                        before,
                        any,
                    ));
                }
            }
            i += 1;
        }
        assert(gs.take(i as int) =~= gs);
    }

    /// Run the circuit with replayable external sources.
    pub fn apply_with_externals<R: ReversibleExternalRegistry>(
        &self,
        wires: &mut Vec<bool>,
        storage: &mut StorageState,
        externals: &mut R,
    )
        requires
            old(wires)@.len() == self.num_wires,
            runnable(self.num_wires as nat, self.gate_list()),
        ensures
            final(wires)@.len() == self.num_wires,
            final(externals).source() == old(externals).source(),
            (RState { wires: final(wires)@, cells: final(storage)@ }) == run(
                self.gate_list(),
                RState { wires: old(wires)@, cells: old(storage)@ },
                old(externals).source(),
            ),
    {
        let ghost start = RState { wires: wires@, cells: storage@ };
        let ghost gs = self.gate_list();
        let ghost src = externals.source();
        let mut i: usize = 0;
        while i < self.gates.len()
            invariant
                i <= self.gates.len(),
                gs == self.gate_list(),
                wires@.len() == self.num_wires,
                runnable(self.num_wires as nat, gs),
                externals.source() == src,
                (RState { wires: wires@, cells: storage@ }) == run(gs.take(i as int), start, src),
            decreases self.gates.len() - i,
        {
            let ghost before = RState { wires: wires@, cells: storage@ };
            assert(gs[i as int] == self.gates@[i as int]@);
            assert(gate_runnable(self.num_wires as nat, gs[i as int]));
            match &self.gates[i] {
                RGate::ExternalXor { kind, name, args, target, bit, occurrence } => {
                    let inputs = read_wires(args, wires);
                    let value: bool = match kind {
                        RExternalKind::Oracle => externals.oracle_bit(
                            name.as_str(),
                            inputs.as_slice(),
                            *bit,
                            *occurrence,
                        ),
                        RExternalKind::Rng => externals.rng_bit(name.as_str(), *bit, *occurrence),
                    };
                    let v: bool = wires[*target] != value;
                    wires.set(*target, v);
                },
                RGate::ExternalStorageXor {
                    name,
                    guard,
                    args,
                    fallback,
                    storage: sid,
                    lane,
                    addr,
                    bit,
                    occurrence,
                } => {
                    let value: bool = if wires[*guard] {
                        let inputs = read_wires(args, wires);
                        externals.action_bit(
                            name.as_str(),
                            inputs.as_slice(),
                            *bit,
                            *occurrence,
                        )
                    } else {
                        wires[*fallback]
                    };
                    let cell: CellKey = ((*sid, *lane), addr_cell_index(addr, wires));
                    let held: bool = match storage.get(&cell) {
                        Some(b) => b,
                        None => false,
                    };
                    if held != value {
                        storage.insert(cell, true);
                    } else {
                        storage.remove(&cell);
                    }
                },
                _ => {
                    apply_gate(&self.gates[i], wires, storage, Ghost(src));
                },
            }
            proof {
                assert((RState { wires: wires@, cells: storage@ }) == gate_step(
                    gs[i as int],
                    before,
                    src,
                ));
                assert(gs.take(i + 1) =~= gs.take(i as int).push(gs[i as int]));
                lemma_run_push(gs.take(i as int), gs[i as int], start, src);
            }
            i += 1;
        }
        assert(gs.take(i as int) =~= gs);
    }

    /// Run a circuit that uses neither storage nor external sources. Others
    /// are refused, and the wires stay as they are.
    pub fn apply_pure(&self, wires: &mut Vec<bool>) -> (r: Result<(), RCircuitError>)
        requires
            !gates_use_externals(self.gate_list()) && !gates_use_storage(self.gate_list())
                ==> old(wires)@.len() == self.num_wires && runnable(
                self.num_wires as nat,
                self.gate_list(),
            ),
        ensures
            match r {
                Ok(_) => final(wires)@.len() == self.num_wires && !gates_use_externals(self.gate_list()) && !gates_use_storage(
                    self.gate_list(),
                ) && forall|src: ExternalSource|
                    final(wires)@ == #[trigger] run(
                        self.gate_list(),
                        RState { wires: old(wires)@, cells: Map::empty() },
                        src,
                    ).wires,
                Err(e) => final(wires)@ == old(wires)@ && if gates_use_externals(self.gate_list()) {
                    e == RCircuitError::ExternalOpsUnsupported
                } else {
                    gates_use_storage(self.gate_list()) && e
                        == RCircuitError::StorageOpsUnsupported
                },
            },
    {
        if self.uses_externals() {
            return Err(RCircuitError::ExternalOpsUnsupported);
        }
        if self.uses_storage() {
            return Err(RCircuitError::StorageOpsUnsupported);
        }
        let mut no_storage = StorageState::new();
        self.apply(wires, &mut no_storage);
        Ok(())
    }

    /// The inverse circuit: the same gates in reverse order.
    pub fn inverse(&self) -> (r: RCircuit)
        ensures
            r.num_wires == self.num_wires,
            r.gate_list() == self.gate_list().reverse(),
            self.wf() ==> r.wf(),
    {
        let mut gates: Vec<RGate> = Vec::new();
        let mut i: usize = self.gates.len();
        while i > 0
            invariant
                i <= self.gates.len(),
                gates@.len() + i == self.gates@.len(),
                forall|j: int|
                    0 <= j < gates@.len() ==> (#[trigger] gates@[j])@ == self.gates@[self.gates@.len()
                        - 1 - j]@,
            decreases i,
        {
            i -= 1;
            gates.push(self.gates[i].clone());
        }
        let r = RCircuit { num_wires: self.num_wires, gates };
        assert(r.gate_list() =~= self.gate_list().reverse());
        r
    }

    /// This circuit followed by `next`.
    pub fn then(&self, next: &RCircuit) -> (r: Result<RCircuit, RCircuitError>)
        requires
            self.gates@.len() + next.gates@.len() <= usize::MAX,
        ensures
            match r {
                Ok(c) => self.num_wires == next.num_wires && c.num_wires == self.num_wires
                    && c.gate_list() == self.gate_list() + next.gate_list() && c.wf(),
                Err(e) => if self.num_wires != next.num_wires {
                    e == (RCircuitError::WireCountMismatch {
                        lhs: self.num_wires,
                        rhs: next.num_wires,
                    })
                } else {
                    gates_error(self.num_wires, self.gate_list() + next.gate_list(), 0) == Some(e)
                },
            },
            self.num_wires == next.num_wires && self.wf() && next.wf() ==> r is Ok,
    {
        if self.num_wires != next.num_wires {
            return Err(
                RCircuitError::WireCountMismatch { lhs: self.num_wires, rhs: next.num_wires },
            );
        }
        let mut gates = clone_gates(&self.gates);
        let ghost first = gate_views(gates@);
        let mut i: usize = 0;
        while i < next.gates.len()
            invariant
                i <= next.gates.len(),
                first == self.gate_list(),
                gate_views(gates@) == first + next.gate_list().take(i as int),
            decreases next.gates.len() - i,
        {
            let ghost so_far = gates@;
            gates.push(next.gates[i].clone());
            assert(gate_views(gates@) =~= gate_views(so_far).push(next.gate_list()[i as int]));
            assert(first + next.gate_list().take(i + 1) =~= (first + next.gate_list().take(
                i as int,
            )).push(next.gate_list()[i as int]));
            i += 1;
        }
        assert(next.gate_list().take(i as int) =~= next.gate_list());
        proof {
            let all = self.gate_list() + next.gate_list();
            if self.wf() && next.wf() {
                assert forall|j: int| 0 <= j < all.len() implies gate_ok(
                    self.num_wires,
                    #[trigger] all[j],
                ) by {
                    if j < self.gate_list().len() {
                        assert(all[j] == self.gate_list()[j]);
                    } else {
                        assert(all[j] == next.gate_list()[j - self.gate_list().len()]);
                    }
                }
                lemma_gates_error(self.num_wires, all, 0);
            }
        }
        RCircuit::new(self.num_wires, gates)
    }
}

// ---------------------------------------------------------------------------
// Laws
// ---------------------------------------------------------------------------

/// Whether two storages hold the same bit in every cell.
pub open spec fn same_bits(a: Map<CellKey, bool>, b: Map<CellKey, bool>) -> bool {
    forall|k: CellKey| #[trigger] cell_bit(a, k) == cell_bit(b, k)
}

/// Whether two states have the same wires and hold the same bits.
pub open spec fn same_state(a: RState, b: RState) -> bool {
    a.wires == b.wires && same_bits(a.cells, b.cells)
}

/// The value of an address does not depend on wires that are not part of it.
proof fn lemma_addr_value_frame(addr: Seq<usize>, wires: Seq<bool>, t: int, v: bool)
    requires
        wires_below(addr, wires.len()),
        0 <= t < wires.len(),
        forall|j: int| 0 <= j < addr.len() ==> (#[trigger] addr[j]) != t,
    ensures
        addr_value(addr, wires.update(t, v)) == addr_value(addr, wires),
    decreases addr.len(),
{
    if addr.len() > 0 {
        let rest = addr.drop_first();
        assert forall|j: int| 0 <= j < rest.len() implies (#[trigger] rest[j]) != t && rest[j]
            < wires.len() by {
            assert(rest[j] == addr[j + 1]);
        }
        lemma_addr_value_frame(rest, wires, t, v);
        assert(addr[0] != t);
    }
}

/// Every gate is an involution: performing it twice restores all wires and
/// the bit of every cell.
pub proof fn law_gate_involution(n: usize, g: RGateView, s: RState, src: ExternalSource)
    requires
        gate_ok(n, g),
        s.wires.len() == n,
    ensures
        same_state(gate_step(g, gate_step(g, s, src), src), s),
{
    lemma_ok_runnable(n, g);
    let s1 = gate_step(g, s, src);
    let s2 = gate_step(g, s1, src);
    match g {
        RGateView::X(w) => {
            assert(s2.wires =~= s.wires);
        },
        RGateView::Cnot { ctrl, target } => {
            assert(s2.wires =~= s.wires);
        },
        RGateView::Ccnot { c1, c2, target } => {
            assert(s2.wires =~= s.wires);
        },
        RGateView::XorLut2 { control0, control1, target, table } => {
            assert(s2.wires =~= s.wires);
        },
        RGateView::StorageSwap { storage, lane, addr, target } => {
            lemma_wires_error_none(n, 0, addr, Some(target));
            lemma_addr_value_frame(
                addr,
                s.wires,
                target as int,
                cell_bit(s.cells, addressed_cell(storage, lane, addr, s.wires)),
            );
            assert(s2.wires =~= s.wires);
        },
        RGateView::ExternalXor { kind, name, args, target, bit, occurrence } => {
            lemma_wires_error_none(n, 0, args, Some(target));
            assert(wire_bits(args, s1.wires) =~= wire_bits(args, s.wires));
            assert(s2.wires =~= s.wires);
        },
        RGateView::ExternalStorageXor { .. } => {
            assert(s2.wires =~= s.wires);
        },
    }
}

/// A gate cannot tell apart states that hold the same bits.
proof fn lemma_step_same_state(g: RGateView, a: RState, b: RState, src: ExternalSource)
    requires
        same_state(a, b),
    ensures
        same_state(gate_step(g, a, src), gate_step(g, b, src)),
{
    let x = gate_step(g, a, src);
    let y = gate_step(g, b, src);
    match g {
        RGateView::StorageSwap { storage, lane, addr, target } => {
            let k = addressed_cell(storage, lane, addr, a.wires);
            assert(cell_bit(a.cells, k) == cell_bit(b.cells, k));
            assert forall|q: CellKey| #[trigger] cell_bit(x.cells, q) == cell_bit(y.cells, q) by {
                assert(cell_bit(a.cells, q) == cell_bit(b.cells, q));
            }
        },
        RGateView::ExternalStorageXor { storage, lane, addr, .. } => {
            let k = addressed_cell(storage, lane, addr, a.wires);
            assert(cell_bit(a.cells, k) == cell_bit(b.cells, k));
            assert forall|q: CellKey| #[trigger] cell_bit(x.cells, q) == cell_bit(y.cells, q) by {
                assert(cell_bit(a.cells, q) == cell_bit(b.cells, q));
            }
        },
        _ => {},
    }
}

/// A gate list cannot tell apart states that hold the same bits.
pub proof fn law_run_same_state(gates: Seq<RGateView>, a: RState, b: RState, src: ExternalSource)
    requires
        same_state(a, b),
    ensures
        same_state(run(gates, a, src), run(gates, b, src)),
    decreases gates.len(),
{
    if gates.len() > 0 {
        lemma_step_same_state(gates[0], a, b, src);
        law_run_same_state(
            gates.drop_first(),
            gate_step(gates[0], a, src),
            gate_step(gates[0], b, src),
            src,
        );
    }
}

/// Running two gate lists one after the other is running their concatenation.
pub proof fn law_then_composes(
    a: Seq<RGateView>,
    b: Seq<RGateView>,
    s: RState,
    src: ExternalSource,
)
    ensures
        run(a + b, s, src) == run(b, run(a, s, src), src),
    decreases a.len(),
{
    if a.len() == 0 {
        assert(a + b =~= b);
    } else {
        assert((a + b).drop_first() =~= a.drop_first() + b);
        law_then_composes(a.drop_first(), b, gate_step(a[0], s, src), src);
    }
}

/// The inverse undoes the circuit: after both, all wires and the bit of every
/// cell are what they were.
pub proof fn law_inverse_undoes(n: usize, gates: Seq<RGateView>, s: RState, src: ExternalSource)
    requires
        circuit_wf(n, gates),
        s.wires.len() == n,
    ensures
        same_state(run(gates.reverse(), run(gates, s, src), src), s),
    decreases gates.len(),
{
    if gates.len() > 0 {
        let g = gates[0];
        let rest = gates.drop_first();
        let s1 = gate_step(g, s, src);
        assert forall|i: int| 0 <= i < rest.len() implies gate_ok(n, #[trigger] rest[i]) by {
            assert(rest[i] == gates[i + 1]);
        }
        assert(gate_ok(n, gates[0]));
        lemma_ok_runnable(n, g);
        lemma_step_len(g, s, src);
        law_inverse_undoes(n, rest, s1, src);
        let done = run(gates, s, src);
        assert(gates.reverse() =~= rest.reverse().push(g));
        lemma_run_push(rest.reverse(), g, done, src);
        lemma_step_same_state(g, run(rest.reverse(), done, src), s1, src);
        law_gate_involution(n, g, s, src);
        assert(same_state(gate_step(g, s1, src), s));
    }
}

/// Inverting twice gives back the gates.
pub proof fn law_inverse_inverse(gates: Seq<RGateView>)
    ensures
        gates.reverse().reverse() == gates,
{
    assert(gates.reverse().reverse() =~= gates);
}

// ---------------------------------------------------------------------------
// What gates do
// ---------------------------------------------------------------------------

/// Gates on wires change their target alone: a negation turns it round, a
/// controlled one turns it round exactly if all controls are on, and a lookup
/// exactly if the table has a one for the controls, where the entries for
/// `00`, `01`, `10` and `11` are worth 8, 4, 2 and 1.
pub proof fn law_wire_gates(g: RGate, s: RState, src: ExternalSource)
    requires
        gate_runnable(s.wires.len(), g@),
    ensures
        ({
            let r = run(seq![g@], s, src);
            let w = s.wires;
            match g {
                RGate::X(t) => {
                    &&& r.cells == s.cells
                    &&& r.wires.len() == w.len()
                    &&& forall|v: int| 0 <= v < w.len() && v != t ==> #[trigger] r.wires[v] == w[v]
                    &&& r.wires[t as int] <==> !w[t as int]
                },
                RGate::Cnot { ctrl, target } => {
                    &&& r.cells == s.cells
                    &&& r.wires.len() == w.len()
                    &&& forall|v: int|
                        0 <= v < w.len() && v != target ==> #[trigger] r.wires[v] == w[v]
                    &&& w[ctrl as int] ==> (r.wires[target as int] <==> !w[target as int])
                    &&& !w[ctrl as int] ==> (r.wires[target as int] <==> w[target as int])
                },
                RGate::Ccnot { c1, c2, target } => {
                    &&& r.cells == s.cells
                    &&& r.wires.len() == w.len()
                    &&& forall|v: int|
                        0 <= v < w.len() && v != target ==> #[trigger] r.wires[v] == w[v]
                    &&& w[c1 as int] && w[c2 as int] ==> (r.wires[target as int]
                        <==> !w[target as int])
                    &&& !w[c1 as int] || !w[c2 as int] ==> (r.wires[target as int]
                        <==> w[target as int])
                },
                RGate::XorLut2 { controls, target, table } => {
                    let (a, b) = (w[controls@[0] as int], w[controls@[1] as int]);
                    let turned = r.wires[target as int] != w[target as int];
                    &&& r.cells == s.cells
                    &&& r.wires.len() == w.len()
                    &&& forall|v: int|
                        0 <= v < w.len() && v != target ==> #[trigger] r.wires[v] == w[v]
                    &&& !a && !b ==> (turned <==> table / 8 % 2 == 1)
                    &&& !a && b ==> (turned <==> table / 4 % 2 == 1)
                    &&& a && !b ==> (turned <==> table / 2 % 2 == 1)
                    &&& a && b ==> (turned <==> table % 2 == 1)
                },
                _ => true,
            }
        }),
{
    lemma_run_one(g@, s, src);
    if let RGate::XorLut2 { controls, target, table } = g {
        assert((table & 8 != 0) == (table / 8 % 2 == 1)) by (bit_vector);
        assert((table & 4 != 0) == (table / 4 % 2 == 1)) by (bit_vector);
        assert((table & 2 != 0) == (table / 2 % 2 == 1)) by (bit_vector);
        assert((table & 1 != 0) == (table % 2 == 1)) by (bit_vector);
    }
}

/// A gate alone is its step.
proof fn lemma_run_one(g: RGateView, s: RState, src: ExternalSource)
    ensures
        run(seq![g], s, src) == gate_step(g, s, src),
{
    lemma_run_push(Seq::empty(), g, s, src);
    assert(Seq::<RGateView>::empty().push(g) =~= seq![g]);
}

/// Addresses are binary numbers, least significant bit first: no wires give
/// zero, and one more wire at the end adds its power of two if it is on.
pub proof fn law_addresses_are_binary(addr: Seq<usize>, w: usize, wires: Seq<bool>)
    ensures
        addr_value(Seq::empty(), wires) == 0,
        wires[w as int] ==> addr_value(addr.push(w), wires) == addr_value(addr, wires) + pow2(
            addr.len(),
        ),
        !wires[w as int] ==> addr_value(addr.push(w), wires) == addr_value(addr, wires),
    decreases addr.len(),
{
    let all = addr.push(w);
    if addr.len() == 0 {
        vstd::arithmetic::power2::lemma2_to64();
        assert(all.drop_first() =~= addr);
    } else {
        let rest = addr.drop_first();
        law_addresses_are_binary(rest, w, wires);
        assert(all.drop_first() =~= rest.push(w));
        lemma_pow2_unfold(addr.len());
    }
}

/// A storage swap puts the bit of the target into the addressed cell and the
/// bit of the cell onto the target, and changes no other wire and no other
/// cell.
pub proof fn law_storage_swap(g: RGate, s: RState, src: ExternalSource)
    requires
        gate_runnable(s.wires.len(), g@),
        g is StorageSwap,
    ensures
        ({
            let r = run(seq![g@], s, src);
            let w = s.wires;
            let t = g->StorageSwap_target as int;
            let k = (
                (g->StorageSwap_storage, g->StorageSwap_lane),
                addr_value(g->StorageSwap_addr@, w) as u64,
            );
            &&& r.wires.len() == w.len()
            &&& forall|v: int| 0 <= v < w.len() && v != t ==> #[trigger] r.wires[v] == w[v]
            &&& r.wires[t] <==> s.cells.dom().contains(k) && s.cells[k]
            &&& r.cells.dom().contains(k)
            &&& r.cells[k] <==> w[t]
            &&& forall|q: CellKey|
                q != k ==> #[trigger] r.cells.dom().contains(q) == s.cells.dom().contains(q)
            &&& forall|q: CellKey| q != k ==> #[trigger] r.cells[q] == s.cells[q]
        }),
{
    lemma_run_one(g@, s, src);
}

/// A gate on an outside source turns its target round exactly if the source
/// gives a one: an oracle by name, the bits on the argument wires, bit index
/// and occurrence, a random source without the arguments.
pub proof fn law_external_gates(g: RGate, s: RState, src: ExternalSource)
    requires
        gate_runnable(s.wires.len(), g@),
        g is ExternalXor,
    ensures
        ({
            let r = run(seq![g@], s, src);
            let w = s.wires;
            let t = g->ExternalXor_target as int;
            let args = Seq::new(
                g->ExternalXor_args@.len(),
                |i: int| w[g->ExternalXor_args@[i] as int],
            );
            &&& r.cells == s.cells
            &&& r.wires.len() == w.len()
            &&& forall|v: int| 0 <= v < w.len() && v != t ==> #[trigger] r.wires[v] == w[v]
            &&& g->ExternalXor_kind is Oracle ==> (r.wires[t] != w[t] <==> (src.oracle)(
                g->ExternalXor_name@,
                args,
                g->ExternalXor_bit,
                g->ExternalXor_occurrence,
            ))
            &&& g->ExternalXor_kind is Rng ==> (r.wires[t] != w[t] <==> (src.rng)(
                g->ExternalXor_name@,
                g->ExternalXor_bit,
                g->ExternalXor_occurrence,
            ))
        }),
{
    lemma_run_one(g@, s, src);
    let list = g->ExternalXor_args@;
    assert(wire_bits(list, s.wires) =~= Seq::new(list.len(), |i: int| s.wires[list[i] as int]));
}

/// A guarded storage gate changes no wire and no cell but the addressed one,
/// whose bit it turns round exactly if the bit that it takes is a one. With the
/// guard on that is the bit of the action; with the guard off it is the bit on
/// the fallback wire. A cell that comes to hold a zero is given up.
pub proof fn law_guarded_storage_gate(g: RGate, s: RState, src: ExternalSource)
    requires
        gate_runnable(s.wires.len(), g@),
        g is ExternalStorageXor,
    ensures
        ({
            let r = run(seq![g@], s, src);
            let w = s.wires;
            let k = (
                (g->ExternalStorageXor_storage, g->ExternalStorageXor_lane),
                addr_value(g->ExternalStorageXor_addr@, w) as u64,
            );
            let args = Seq::new(
                g->ExternalStorageXor_args@.len(),
                |i: int| w[g->ExternalStorageXor_args@[i] as int],
            );
            let before = s.cells.dom().contains(k) && s.cells[k];
            let after = r.cells.dom().contains(k) && r.cells[k];
            &&& r.wires == w
            &&& !w[g->ExternalStorageXor_guard as int] ==> (after != before
                <==> w[g->ExternalStorageXor_fallback as int])
            &&& w[g->ExternalStorageXor_guard as int] ==> (after != before <==> (src.action)(
                g->ExternalStorageXor_name@,
                args,
                g->ExternalStorageXor_bit,
                g->ExternalStorageXor_occurrence,
            ))
            &&& r.cells.dom().contains(k) <==> after
            &&& forall|q: CellKey|
                q != k ==> #[trigger] r.cells.dom().contains(q) == s.cells.dom().contains(q)
            &&& forall|q: CellKey| q != k ==> #[trigger] r.cells[q] == s.cells[q]
        }),
{
    lemma_run_one(g@, s, src);
    let list = g->ExternalStorageXor_args@;
    assert(wire_bits(list, s.wires) =~= Seq::new(list.len(), |i: int| s.wires[list[i] as int]));
}

/// Gates run one after the other, the first one first.
pub proof fn law_gates_run_in_order(
    a: RGateView,
    b: RGateView,
    s: RState,
    src: ExternalSource,
)
    ensures
        run(Seq::empty(), s, src) == s,
        run(seq![a, b], s, src) == run(seq![b], run(seq![a], s, src), src),
{
    assert(seq![a] + seq![b] =~= seq![a, b]);
    law_then_composes(seq![a], seq![b], s, src);
}

/// A gate may be used exactly if its wires exist, its target is none of the
/// wires that it reads, the controls of a lookup differ and its table has at
/// most four bits, and an address has at most 64.
pub proof fn law_gate_accepted(n: usize, i: usize, g: RGate)
    ensures
        gate_error(n, i, g@) is None <==> match g {
            RGate::X(t) => t < n,
            RGate::Cnot { ctrl, target } => ctrl < n && target < n && ctrl != target,
            RGate::Ccnot { c1, c2, target } => c1 < n && c2 < n && target < n && c1 != target && c2
                != target,
            RGate::XorLut2 { controls, target, table } => controls@[0] < n && controls@[1] < n
                && target < n && controls@[0] != target && controls@[1] != target && controls@[0]
                != controls@[1] && table <= 15,
            RGate::StorageSwap { addr, target, .. } => target < n && addr@.len() <= 64
                && !addr@.contains(target) && forall|w: usize|
                #[trigger] addr@.contains(w) ==> w < n,
            RGate::ExternalXor { args, target, .. } => target < n && !args@.contains(target)
                && forall|w: usize| #[trigger] args@.contains(w) ==> w < n,
            RGate::ExternalStorageXor { guard, args, fallback, addr, .. } => guard < n && fallback
                < n && addr@.len() <= 64 && (forall|w: usize| #[trigger]
                args@.contains(w) ==> w < n) && forall|w: usize| #[trigger]
                addr@.contains(w) ==> w < n,
        },
{
    lemma_gate_error_position(n, i, 0, g@);
    match g {
        RGate::X(t) => {
            lemma_wires_known(n, i, seq![t], None);
            assert(seq![t][0] == t);
        },
        RGate::Cnot { ctrl, target } => {
            let l = seq![ctrl, target];
            lemma_wires_error_none(n, i, l, None);
            assert(l[0] == ctrl && l[1] == target);
        },
        RGate::Ccnot { c1, c2, target } => {
            let l = seq![c1, c2, target];
            lemma_wires_error_none(n, i, l, None);
            assert(l[0] == c1 && l[1] == c2 && l[2] == target);
        },
        RGate::XorLut2 { controls, target, table } => {
            let l = seq![controls@[0], controls@[1], target];
            lemma_wires_error_none(n, i, l, None);
            assert(l[0] == controls@[0] && l[1] == controls@[1] && l[2] == target);
        },
        RGate::StorageSwap { addr, target, .. } => {
            lemma_wires_known(n, i, seq![target], None);
            assert(seq![target][0] == target);
            lemma_wires_known(n, i, addr@, Some(target));
        },
        RGate::ExternalXor { args, target, .. } => {
            lemma_wires_known(n, i, seq![target], None);
            assert(seq![target][0] == target);
            lemma_wires_known(n, i, args@, Some(target));
        },
        RGate::ExternalStorageXor { guard, args, fallback, addr, .. } => {
            let head = seq![guard, fallback];
            lemma_wires_error_concat(n, i, head + args@, addr@, None);
            lemma_wires_error_concat(n, i, head, args@, None);
            lemma_wires_error_none(n, i, head, None);
            assert(head[0] == guard && head[1] == fallback);
            lemma_wires_known(n, i, args@, None);
            lemma_wires_known(n, i, addr@, None);
        },
    }
}

/// The same as [`lemma_wires_error_none`], by membership.
proof fn lemma_wires_known(n: usize, i: usize, wires: Seq<usize>, target: Option<usize>)
    ensures
        wires_error(n, i, wires, target) is None <==> (forall|w: usize| #[trigger]
            wires.contains(w) ==> w < n) && (target matches Some(t) ==> !wires.contains(t)),
{
    lemma_wires_error_none(n, i, wires, target);
    if wires_error(n, i, wires, target) is None {
        assert forall|w: usize| #[trigger] wires.contains(w) implies w < n by {
            let j = choose|j: int| 0 <= j < wires.len() && wires[j] == w;
            assert(wires[j] < n);
        }
    } else {
        let j = choose|j: int|
            0 <= j < wires.len() && !((#[trigger] wires[j]) < n && target != Some(wires[j]));
        assert(wires.contains(wires[j]));
    }
}

/// Whether a gate names a wire.
pub open spec fn names_wire(g: RGate, w: usize) -> bool {
    match g {
        RGate::X(t) => w == t,
        RGate::Cnot { ctrl, target } => w == ctrl || w == target,
        RGate::Ccnot { c1, c2, target } => w == c1 || w == c2 || w == target,
        RGate::XorLut2 { controls, target, .. } => w == controls@[0] || w == controls@[1] || w
            == target,
        RGate::StorageSwap { addr, target, .. } => w == target || addr@.contains(w),
        RGate::ExternalXor { args, target, .. } => w == target || args@.contains(w),
        RGate::ExternalStorageXor { guard, args, fallback, addr, .. } => w == guard || w == fallback
            || args@.contains(w) || addr@.contains(w),
    }
}

/// A faulty gate is told of by its number, and what is told of it holds: a wire
/// out of range is one that it names and is not below the number of wires, an
/// aliased target is its target and also read, aliased controls are the same
/// wire, a refused table has more than four bits, and a refused address more
/// than 64. A wire out of range comes before other faults.
pub proof fn law_gate_refused(n: usize, i: usize, g: RGate)
    ensures
        match gate_error(n, i, g@) {
            None => true,
            Some(RCircuitError::IndexOutOfRange { gate, wire }) => gate == i && wire >= n
                && names_wire(g, wire),
            Some(RCircuitError::TargetAliased { gate, wire }) => gate == i && match g {
                RGate::Cnot { ctrl, target } => wire == ctrl && wire == target && wire < n,
                RGate::Ccnot { c1, c2, target } => wire == target && (wire == c1 || wire == c2)
                    && c1 < n && c2 < n && target < n,
                RGate::XorLut2 { controls, target, .. } => wire == target && (wire == controls@[0]
                    || wire == controls@[1]) && controls@[0] < n && controls@[1] < n && target < n,
                RGate::StorageSwap { addr, target, .. } => wire == target && addr@.contains(wire)
                    && target < n,
                RGate::ExternalXor { args, target, .. } => wire == target && args@.contains(wire)
                    && target < n,
                _ => false,
            },
            Some(RCircuitError::ControlAliased { gate, wire }) => gate == i && match g {
                RGate::XorLut2 { controls, target, .. } => wire == controls@[0] && wire
                    == controls@[1] && wire != target && wire < n && target < n,
                _ => false,
            },
            Some(RCircuitError::InvalidTruthTable { gate, table }) => gate == i && match g {
                RGate::XorLut2 { controls, target, table: t } => t == table && table > 15
                    && controls@[0] != controls@[1] && controls@[0] != target && controls@[1]
                    != target,
                _ => false,
            },
            Some(RCircuitError::AddressTooWide { gate, width }) => gate == i && width > 64
                && match g {
                RGate::StorageSwap { addr, target, .. } => width == addr@.len()
                    && !addr@.contains(target),
                RGate::ExternalStorageXor { addr, .. } => width == addr@.len(),
                _ => false,
            },
            Some(_) => false,
        },
{
    match g {
        RGate::X(t) => {
            lemma_wires_blamed(n, i, seq![t], None);
            lemma_listed(g, seq![t]);
        },
        RGate::Cnot { ctrl, target } => {
            let l = seq![ctrl, target];
            lemma_wires_blamed(n, i, l, None);
            lemma_wires_error_none(n, i, l, None);
            assert(l[0] == ctrl && l[1] == target);
            lemma_listed(g, l);
        },
        RGate::Ccnot { c1, c2, target } => {
            let l = seq![c1, c2, target];
            lemma_wires_blamed(n, i, l, None);
            lemma_wires_error_none(n, i, l, None);
            assert(l[0] == c1 && l[1] == c2 && l[2] == target);
            lemma_listed(g, l);
        },
        RGate::XorLut2 { controls, target, table } => {
            let l = seq![controls@[0], controls@[1], target];
            lemma_wires_blamed(n, i, l, None);
            lemma_wires_error_none(n, i, l, None);
            assert(l[0] == controls@[0] && l[1] == controls@[1] && l[2] == target);
            lemma_listed(g, l);
        },
        RGate::StorageSwap { addr, target, .. } => {
            lemma_wires_blamed(n, i, seq![target], None);
            lemma_wires_error_none(n, i, seq![target], None);
            assert(seq![target][0] == target);
            lemma_listed(g, seq![target]);
            lemma_wires_blamed(n, i, addr@, Some(target));
            lemma_wires_known(n, i, addr@, Some(target));
            assert(addr@.len() == addr.len());
        },
        RGate::ExternalXor { args, target, .. } => {
            lemma_wires_blamed(n, i, seq![target], None);
            lemma_wires_error_none(n, i, seq![target], None);
            assert(seq![target][0] == target);
            lemma_listed(g, seq![target]);
            lemma_wires_blamed(n, i, args@, Some(target));
        },
        RGate::ExternalStorageXor { guard, args, fallback, addr, .. } => {
            let head = seq![guard, fallback];
            lemma_wires_error_concat(n, i, head + args@, addr@, None);
            lemma_wires_error_concat(n, i, head, args@, None);
            lemma_wires_blamed(n, i, head, None);
            assert(head[0] == guard && head[1] == fallback);
            lemma_listed(g, head);
            lemma_wires_blamed(n, i, args@, None);
            lemma_wires_blamed(n, i, addr@, None);
            assert(addr@.len() == addr.len());
        },
    }
}

/// Wires of which each is named are named.
proof fn lemma_listed(g: RGate, l: Seq<usize>)
    requires
        forall|j: int| 0 <= j < l.len() ==> names_wire(g, #[trigger] l[j]),
    ensures
        forall|w: usize| #[trigger] l.contains(w) ==> names_wire(g, w),
{
    assert forall|w: usize| #[trigger] l.contains(w) implies names_wire(g, w) by {
        let j = choose|j: int| 0 <= j < l.len() && l[j] == w;
        assert(names_wire(g, l[j]));
    }
}

/// What a list of wires is blamed for.
proof fn lemma_wires_blamed(n: usize, i: usize, wires: Seq<usize>, target: Option<usize>)
    ensures
        match wires_error(n, i, wires, target) {
            None => true,
            Some(RCircuitError::IndexOutOfRange { gate, wire }) => gate == i && wire >= n
                && wires.contains(wire),
            Some(RCircuitError::TargetAliased { gate, wire }) => gate == i && target == Some(wire)
                && wires.contains(wire),
            Some(_) => false,
        },
    decreases wires.len(),
{
    if wires.len() > 0 {
        let rest = wires.drop_first();
        lemma_wires_blamed(n, i, rest, target);
        assert(wires.contains(wires[0]));
        assert forall|w: usize| #[trigger] rest.contains(w) implies wires.contains(w) by {
            let j = choose|j: int| 0 <= j < rest.len() && rest[j] == w;
            assert(wires[j + 1] == w);
        }
    }
}

/// A circuit is refused for its first faulty gate: that gate is faulty, it is
/// the one that is named, and no gate before it is.
pub proof fn law_first_faulty_gate(n: usize, gates: Seq<RGate>)
    requires
        gates.len() <= usize::MAX,
    ensures
        match gates_error(n, gate_views(gates), 0) {
            Some(e) => exists|i: int|
                0 <= i < gates.len() && gate_error(n, i as usize, #[trigger] gates[i]@) == Some(e)
                    && forall|j: int|
                    0 <= j < i ==> gate_error(n, j as usize, #[trigger] gates[j]@) is None,
            None => forall|j: int|
                0 <= j < gates.len() ==> gate_error(n, j as usize, #[trigger] gates[j]@) is None,
        },
{
    lemma_first_faulty(n, gates, 0);
}

proof fn lemma_first_faulty(n: usize, gates: Seq<RGate>, from: int)
    requires
        gates.len() <= usize::MAX,
        0 <= from <= gates.len(),
        forall|j: int| 0 <= j < from ==> gate_error(n, j as usize, #[trigger] gates[j]@) is None,
    ensures
        match gates_error(n, gate_views(gates), from) {
            Some(e) => exists|i: int|
                0 <= i < gates.len() && gate_error(n, i as usize, #[trigger] gates[i]@) == Some(e)
                    && forall|j: int|
                    0 <= j < i ==> gate_error(n, j as usize, #[trigger] gates[j]@) is None,
            None => forall|j: int|
                0 <= j < gates.len() ==> gate_error(n, j as usize, #[trigger] gates[j]@) is None,
        },
    decreases gates.len() - from,
{
    if from < gates.len() {
        assert(gate_views(gates)[from] == gates[from]@);
        if gate_error(n, from as usize, gates[from]@) is None {
            lemma_first_faulty(n, gates, from + 1);
        }
    }
}

/// A circuit uses storage exactly if some gate swaps with a cell or is a
/// guarded storage gate, and outside sources exactly if some gate is one of
/// those or takes the bit of an oracle or a random source.
pub proof fn law_uses(gates: Seq<RGate>)
    ensures
        gates_use_storage(gate_views(gates)) <==> exists|i: int|
            0 <= i < gates.len() && ((#[trigger] gates[i]) is StorageSwap
                || gates[i] is ExternalStorageXor),
        gates_use_externals(gate_views(gates)) <==> exists|i: int|
            0 <= i < gates.len() && ((#[trigger] gates[i]) is ExternalXor
                || gates[i] is ExternalStorageXor),
{
    let v = gate_views(gates);
    assert forall|i: int| 0 <= i < gates.len() implies #[trigger] v[i] == gates[i]@ by {}
    if gates_use_storage(v) {
        let i = choose|i: int| 0 <= i < v.len() && gate_uses_storage(#[trigger] v[i]);
        assert(v[i] == gates[i]@);
    }
    if gates_use_externals(v) {
        let i = choose|i: int| 0 <= i < v.len() && gate_uses_externals(#[trigger] v[i]);
        assert(v[i] == gates[i]@);
    }
    assert forall|i: int|
        0 <= i < gates.len() && ((#[trigger] gates[i]) is StorageSwap
            || gates[i] is ExternalStorageXor) implies gates_use_storage(v) by {
        assert(gate_uses_storage(v[i]));
    }
    assert forall|i: int|
        0 <= i < gates.len() && ((#[trigger] gates[i]) is ExternalXor
            || gates[i] is ExternalStorageXor) implies gates_use_externals(v) by {
        assert(gate_uses_externals(v[i]));
    }
}

/// What is said of each error.
pub proof fn law_error_messages(e: RCircuitError)
    ensures
        match e {
            RCircuitError::IndexOutOfRange { gate, wire } => e.text() == "gate "@ + dec(gate as nat)
                + " references wire "@ + dec(wire as nat) + " out of range"@,
            RCircuitError::TargetAliased { gate, wire } => e.text() == "gate "@ + dec(gate as nat)
                + " aliases control/address wire "@ + dec(wire as nat) + " with its target"@,
            RCircuitError::ControlAliased { gate, wire } => e.text() == "gate "@ + dec(gate as nat)
                + " uses wire "@ + dec(wire as nat) + " for both lookup controls"@,
            RCircuitError::InvalidTruthTable { gate, table } => e.text()
                == "gate "@ + dec(gate as nat) + " has invalid two-input truth table 0x"@ + (
            if table < 16 {
                "0"@
            } else {
                ""@
            }) + hex(table as nat),
            RCircuitError::AddressTooWide { gate, width } => e.text() == "gate "@ + dec(gate as nat)
                + " has a "@ + dec(width as nat) + "-bit storage address (max 64)"@,
            RCircuitError::WireCountMismatch { lhs, rhs } => e.text()
                == "cannot compose circuits with "@ + dec(lhs as nat) + " and "@ + dec(rhs as nat)
                + " wires"@,
            RCircuitError::StorageOpsUnsupported => e.text()
                == "circuit references storage; use `apply` with a StorageState"@,
            RCircuitError::ExternalOpsUnsupported => e.text()
                == "circuit references external sources; use `apply_with_externals`"@,
        },
{
}

} // verus!
