//! Boolean circuits in chunks: the statements are encoded and stored in
//! consecutive ranges, beside a manifest that says which range is where.

use vstd::prelude::*;

use crate::boolar::{
    bir_node_kinds, bir_pre_init_views, clone_bir_pre_init, BIrPreInitSegment, BIrStmt,
    BIrStmtView,
};
use crate::circuit::{bir_node_copied, BCircuit};
use crate::common::Node;
use crate::fmt::{dec, push_dec};
use crate::ir::IRVarId;

verus! {

// ---------------------------------------------------------------------------
// Schedules
// ---------------------------------------------------------------------------

/// The operands that a gate or a storage access needs at hand.
pub open spec fn operands(s: BIrStmtView) -> Seq<IRVarId> {
    match s {
        BIrStmtView::And(a, b) => seq![a, b],
        BIrStmtView::Or(a, b) => seq![a, b],
        BIrStmtView::Xor(a, b) => seq![a, b],
        BIrStmtView::Not(a) => seq![a],
        BIrStmtView::StorageRead { addr, .. } => addr,
        BIrStmtView::StorageWrite { src, addr, .. } => seq![src] + addr,
        _ => Seq::empty(),
    }
}

/// The number of wires beside its result that a statement needs at a time.
pub open spec fn temporaries(s: BIrStmtView) -> nat {
    match s {
        BIrStmtView::Not(_) => 2,
        _ => operands(s).len(),
    }
}

/// The greatest number of wires that one of the statements needs at a time.
pub open spec fn most_temporaries(stmts: Seq<BIrStmtView>) -> nat
    decreases stmts.len(),
{
    if stmts.len() == 0 {
        0
    } else {
        let rest = most_temporaries(stmts.drop_last());
        if rest < temporaries(stmts.last()) {
            temporaries(stmts.last())
        } else {
            rest
        }
    }
}

/// The last position, up to statement `n`, at which variable `v` is defined or
/// an operand. Inputs are defined at position 0, and the result of statement
/// `i` at position `i + 1`.
pub open spec fn last_operand(params: u32, stmts: Seq<BIrStmtView>, v: int, n: int) -> int
    decreases n,
{
    if n <= 0 {
        if v < params {
            0
        } else {
            v - params + 1
        }
    } else {
        let before = last_operand(params, stmts, v, n - 1);
        if operands(stmts[n - 1]).contains(IRVarId(v as u32)) && before < n {
            n
        } else {
            before
        }
    }
}

/// The position behind the last statement.
pub open spec fn output_position(n: nat) -> int {
    if n < u32::MAX {
        n as int + 1
    } else {
        u32::MAX as int
    }
}

/// The last position at which variable `v` is needed: outputs are needed to the
/// end.
pub open spec fn last_position(
    params: u32,
    stmts: Seq<BIrStmtView>,
    outputs: Seq<IRVarId>,
    v: int,
) -> int {
    let used = last_operand(params, stmts, v, stmts.len() as int);
    if outputs.contains(IRVarId(v as u32)) && used < output_position(stmts.len()) {
        output_position(stmts.len())
    } else {
        used
    }
}

/// The last position of each variable.
pub open spec fn last_positions(
    params: u32,
    stmts: Seq<BIrStmtView>,
    outputs: Seq<IRVarId>,
) -> Seq<u32> {
    Seq::new(
        (params + stmts.len()) as nat,
        |v: int| last_position(params, stmts, outputs, v) as u32,
    )
}

/// Those of the variables whose last position is `pos`, in ascending order.
pub open spec fn released(last: Seq<u32>, pos: int) -> Seq<u32>
    decreases last.len(),
{
    if last.len() == 0 {
        Seq::empty()
    } else {
        let rest = released(last.drop_last(), pos);
        if last.last() == pos {
            rest.push((last.len() - 1) as u32)
        } else {
            rest
        }
    }
}

/// The number of wires that must fit at a time.
pub open spec fn wires_required(stmts: Seq<BIrStmtView>) -> int {
    if most_temporaries(stmts) < u32::MAX {
        most_temporaries(stmts) as int + 1
    } else {
        u32::MAX as int
    }
}

/// Why there is no schedule, if there is none.
pub open spec fn schedule_error(
    params: u32,
    stmts: Seq<BIrStmtView>,
    resident: u32,
) -> Option<WireScheduleError> {
    if params + stmts.len() > u32::MAX || most_temporaries(stmts) > u32::MAX {
        Some(WireScheduleError::TooManyStatements)
    } else if resident < wires_required(stmts) {
        Some(
            WireScheduleError::InsufficientResidentWires {
                required: wires_required(stmts) as u32,
                available: resident,
            },
        )
    } else {
        None
    }
}

/// When the wires of a circuit are needed, for a runner that keeps a bounded
/// number of them.
#[derive(PartialEq, Eq, Debug)]
pub struct WireSchedule {
    /// The number of wires that the runner keeps.
    pub resident_wires: u32,
    /// The greatest number of operands of a statement.
    pub temporary_wires: u32,
    /// The last position at which each variable is needed.
    pub last_use: Vec<u32>,
    /// The variables that are not needed behind each position.
    pub release_at: Vec<Vec<u32>>,
}

/// Why a number of wires does not suffice for a circuit.
#[derive(Clone, Copy, PartialEq, Eq, Debug, Structural)]
pub enum WireScheduleError {
    /// A statement needs more wires at a time.
    InsufficientResidentWires { required: u32, available: u32 },
    /// The positions are too many to be numbered.
    TooManyStatements,
}

/// The operands that a gate or a storage access needs at hand.
fn statement_inputs(statement: &BIrStmt) -> (r: Vec<IRVarId>)
    ensures
        r@ == operands(statement@),
{
    match statement {
        BIrStmt::And(a, b) => vec![*a, *b],
        BIrStmt::Or(a, b) => vec![*a, *b],
        BIrStmt::Xor(a, b) => vec![*a, *b],
        BIrStmt::Not(a) => vec![*a],
        BIrStmt::StorageRead { addr, .. } => addr.clone(),
        BIrStmt::StorageWrite { src, addr, .. } => {
            let mut inputs: Vec<IRVarId> = vec![*src];
            let mut i: usize = 0;
            assert(inputs@ =~= seq![*src] + addr@.take(0));
            while i < addr.len()
                invariant
                    i <= addr.len(),
                    inputs@ == seq![*src] + addr@.take(i as int),
                decreases addr.len() - i,
            {
                inputs.push(addr[i]);
                i += 1;
                assert(inputs@ =~= seq![*src] + addr@.take(i as int));
            }
            assert(addr@.take(i as int) =~= addr@);
            inputs
        },
        _ => Vec::new(),
    }
}

proof fn lemma_last_operand_range(params: u32, stmts: Seq<BIrStmtView>, v: int, n: int)
    requires
        0 <= n <= stmts.len(),
        0 <= v < params + stmts.len(),
    ensures
        0 <= last_operand(params, stmts, v, n) <= stmts.len(),
    decreases n,
{
    if n > 0 {
        lemma_last_operand_range(params, stmts, v, n - 1);
    }
}

/// Raise the last positions of the variables in a list to `pos`.
fn note_uses(last: &mut Vec<u32>, vars: &Vec<IRVarId>, pos: u32)
    ensures
        final(last)@.len() == old(last)@.len(),
        forall|v: int|
            0 <= v < final(last)@.len() ==> #[trigger] final(last)@[v] == if vars@.contains(
                IRVarId(v as u32),
            ) && v <= u32::MAX && old(last)@[v] < pos {
                pos
            } else {
                old(last)@[v]
            },
{
    let mut k: usize = 0;
    let ghost before = last@;
    while k < vars.len()
        invariant
            k <= vars.len(),
            last@.len() == before.len(),
            forall|v: int|
                0 <= v < last@.len() ==> #[trigger] last@[v] == if vars@.take(k as int).contains(
                    IRVarId(v as u32),
                ) && v <= u32::MAX && before[v] < pos {
                    pos
                } else {
                    before[v]
                },
        decreases vars.len() - k,
    {
        let i: usize = vars[k].0 as usize;
        let ghost sofar = last@;
        if i < last.len() && last[i] < pos {
            last.set(i, pos);
        }
        proof {
            let now = vars@.take(k + 1);
            assert(now =~= vars@.take(k as int).push(vars@[k as int]));
            assert(now[k as int] == vars@[k as int]);
            assert forall|v: int| 0 <= v < last@.len() implies #[trigger] last@[v] == if now.contains(
                IRVarId(v as u32),
            ) && v <= u32::MAX && before[v] < pos {
                pos
            } else {
                before[v]
            } by {
                let id = IRVarId(v as u32);
                if vars@.take(k as int).contains(id) {
                    let q = choose|q: int| 0 <= q < k && vars@.take(k as int)[q] == id;
                    assert(now[q] == id);
                }
                if now.contains(id) {
                    let q = choose|q: int| 0 <= q < now.len() && now[q] == id;
                    if q < k {
                        assert(vars@.take(k as int)[q] == id);
                    }
                }
                assert(sofar[v] == if vars@.take(k as int).contains(id) && v <= u32::MAX
                    && before[v] < pos {
                    pos
                } else {
                    before[v]
                });
            }
        }
        k += 1;
    }
    assert(vars@.take(k as int) =~= vars@);
}

/// The variables by their last position.
fn release_lists(last: &Vec<u32>, end: u32) -> (r: Vec<Vec<u32>>)
    requires
        last@.len() <= u32::MAX,
        forall|v: int| 0 <= v < last@.len() ==> #[trigger] last@[v] <= end,
    ensures
        r@.len() == end + 1,
        forall|p: int| 0 <= p < r@.len() ==> (#[trigger] r@[p])@ == released(last@, p),
{
    let mut out: Vec<Vec<u32>> = Vec::new();
    let mut p: u64 = 0;
    let ghost none = last@.take(0);
    assert(forall|q: int| released(none, q) == Seq::<u32>::empty());
    while p <= end as u64
        invariant
            p <= end + 1,
            out@.len() == p,
            none == last@.take(0),
            forall|q: int| 0 <= q < p ==> (#[trigger] out@[q])@ == released(none, q),
        decreases end + 1 - p,
    {
        out.push(Vec::new());
        p += 1;
    }
    let mut v: usize = 0;
    while v < last.len()
        invariant
            v <= last.len(),
            last@.len() <= u32::MAX,
            out@.len() == end + 1,
            forall|q: int| 0 <= q < last@.len() ==> #[trigger] last@[q] <= end,
            forall|q: int|
                0 <= q < out@.len() ==> (#[trigger] out@[q])@ == released(last@.take(v as int), q),
        decreases last.len() - v,
    {
        let pos: usize = last[v] as usize;
        proof {
            assert(last@.take(v + 1).drop_last() =~= last@.take(v as int));
            assert(last@.take(v + 1).last() == last@[v as int]);
        }
        let ghost before = out@;
        out[pos].push(v as u32);
        proof {
            assert forall|q: int| 0 <= q < out@.len() implies (#[trigger] out@[q])@ == released(
                last@.take(v + 1),
                q,
            ) by {
                assert(before[q]@ == released(last@.take(v as int), q));
            }
        }
        v += 1;
    }
    assert(last@.take(v as int) =~= last@);
    out
}

proof fn lemma_most_temporaries(stmts: Seq<BIrStmtView>, i: int, j: int)
    requires
        0 <= i <= j <= stmts.len(),
    ensures
        most_temporaries(stmts.take(i)) <= most_temporaries(stmts.take(j)),
    decreases j - i,
{
    if i < j {
        lemma_most_temporaries(stmts, i, j - 1);
        assert(stmts.take(j).drop_last() =~= stmts.take(j - 1));
    }
}

impl WireSchedule {
    /// Whether this is the schedule of a circuit.
    pub open spec fn schedules(
        self,
        params: u32,
        stmts: Seq<BIrStmtView>,
        outputs: Seq<IRVarId>,
        resident: u32,
    ) -> bool {
        &&& self.resident_wires == resident
        &&& self.temporary_wires == most_temporaries(stmts)
        &&& self.last_use@ == last_positions(params, stmts, outputs)
        &&& self.release_at@.len() == output_position(stmts.len()) + 1
        &&& forall|p: int|
            0 <= p < self.release_at@.len() ==> (#[trigger] self.release_at@[p])@ == released(
                self.last_use@,
                p,
            )
    }

    /// The schedule of a circuit for a number of wires.
    pub fn build<P: Clone>(circuit: &BCircuit<P>, resident_wires: u32) -> (r: Result<
        Self,
        WireScheduleError,
    >)
        ensures
            match r {
                Ok(s) => {
                    &&& schedule_error(
                        circuit.params,
                        bir_node_kinds(circuit.stmts@),
                        resident_wires,
                    ) is None
                    &&& s.schedules(
                        circuit.params,
                        bir_node_kinds(circuit.stmts@),
                        circuit.outputs@,
                        resident_wires,
                    )
                },
                Err(e) => schedule_error(
                    circuit.params,
                    bir_node_kinds(circuit.stmts@),
                    resident_wires,
                ) == Some(e),
            },
    {
        let ghost params = circuit.params;
        let ghost stmts = bir_node_kinds(circuit.stmts@);
        let ghost outputs = circuit.outputs@;
        if circuit.stmts.len() as u64 > (u32::MAX - circuit.params) as u64 {
            return Err(WireScheduleError::TooManyStatements);
        }
        let count: u32 = circuit.stmts.len() as u32;
        let vars: u32 = circuit.params + count;
        let mut last_use: Vec<u32> = Vec::new();
        let mut v: u32 = 0;
        while v < vars
            invariant
                v <= vars,
                vars == params + stmts.len(),
                params == circuit.params,
                last_use@.len() == v,
                forall|q: int| 0 <= q < v ==> #[trigger] last_use@[q] == last_operand(params, stmts, q, 0),
            decreases vars - v,
        {
            last_use.push(
                if v < circuit.params {
                    0
                } else {
                    v - circuit.params + 1
                },
            );
            v += 1;
        }
        let mut temporary_wires: u32 = 0;
        let mut i: usize = 0;
        assert(stmts.take(0) =~= Seq::empty());
        while i < circuit.stmts.len()
            invariant
                i <= circuit.stmts.len(),
                stmts == bir_node_kinds(circuit.stmts@),
                params == circuit.params,
                stmts.len() <= u32::MAX,
                vars == params + stmts.len(),
                last_use@.len() == vars,
                temporary_wires == most_temporaries(stmts.take(i as int)),
                forall|q: int|
                    0 <= q < vars ==> #[trigger] last_use@[q] == last_operand(
                        params,
                        stmts,
                        q,
                        i as int,
                    ),
            decreases circuit.stmts.len() - i,
        {
            proof {
                assert(stmts.take(i + 1).drop_last() =~= stmts.take(i as int));
                assert(stmts.take(i + 1).last() == circuit.stmts@[i as int].kind@);
                assert(stmts[i as int] == circuit.stmts@[i as int].kind@);
                assert(stmts.take(stmts.len() as int) =~= stmts);
                lemma_most_temporaries(stmts, i + 1, stmts.len() as int);
            }
            let inputs = statement_inputs(&circuit.stmts[i].kind);
            let need: usize = match &circuit.stmts[i].kind {
                BIrStmt::Not(_) => 2,
                _ => inputs.len(),
            };
            if need > u32::MAX as usize {
                return Err(WireScheduleError::TooManyStatements);
            }
            if temporary_wires < need as u32 {
                temporary_wires = need as u32;
            }
            note_uses(&mut last_use, &inputs, i as u32 + 1);
            i += 1;
        }
        proof {
            assert(stmts.take(i as int) =~= stmts);
        }
        let end: u32 = count.saturating_add(1);
        note_uses(&mut last_use, &circuit.outputs, end);
        let required: u32 = temporary_wires.saturating_add(1);
        if resident_wires < required {
            return Err(
                WireScheduleError::InsufficientResidentWires {
                    required,
                    available: resident_wires,
                },
            );
        }
        proof {
            assert forall|q: int| 0 <= q < vars implies #[trigger] last_use@[q] <= end && last_use@[q]
                == last_position(params, stmts, outputs, q) by {
                lemma_last_operand_range(params, stmts, q, stmts.len() as int);
            }
            assert(last_use@ =~= last_positions(params, stmts, outputs));
        }
        let release_at = release_lists(&last_use, end);
        Ok(WireSchedule { resident_wires, temporary_wires, last_use, release_at })
    }

    /// The number of wires that stay beside the operands of a statement.
    pub fn persistent_wires(&self) -> (r: u32)
        ensures
            r == (if self.resident_wires < self.temporary_wires {
                0
            } else {
                self.resident_wires - self.temporary_wires
            }),
    {
        self.resident_wires.saturating_sub(self.temporary_wires)
    }
}

/// A variable is needed at least until the last gate or storage access that it
/// is an operand of, and until it is defined; an output is needed to the end.
pub proof fn law_needed_until_used(
    params: u32,
    stmts: Seq<BIrStmtView>,
    outputs: Seq<IRVarId>,
    v: IRVarId,
    i: int,
)
    requires
        params + stmts.len() <= u32::MAX,
        v.0 < params + stmts.len(),
        0 <= i < stmts.len(),
    ensures
        operands(stmts[i]).contains(v) ==> last_positions(params, stmts, outputs)[v.0 as int] >= i
            + 1,
        v.0 >= params ==> last_positions(params, stmts, outputs)[v.0 as int] >= v.0 - params + 1,
        outputs.contains(v) ==> last_positions(params, stmts, outputs)[v.0 as int]
            == output_position(stmts.len()),
{
    lemma_last_operand_range(params, stmts, v.0 as int, stmts.len() as int);
    lemma_last_operand_grows(params, stmts, v.0 as int, 0, stmts.len() as int);
    lemma_last_operand_grows(params, stmts, v.0 as int, i + 1, stmts.len() as int);
    assert(IRVarId((v.0 as int) as u32) == v);
}

proof fn lemma_last_operand_grows(params: u32, stmts: Seq<BIrStmtView>, v: int, m: int, n: int)
    requires
        0 <= m <= n,
    ensures
        last_operand(params, stmts, v, m) <= last_operand(params, stmts, v, n),
    decreases n - m,
{
    if m < n {
        lemma_last_operand_grows(params, stmts, v, m, n - 1);
    }
}

/// Every variable is released at its last position and at no other, and once.
pub proof fn law_released_once(last: Seq<u32>, pos: int, v: u32)
    requires
        last.len() <= u32::MAX,
    ensures
        released(last, pos).contains(v) <==> v < last.len() && last[v as int] == pos,
        released(last, pos).no_duplicates(),
    decreases last.len(),
{
    if last.len() > 0 {
        let rest = last.drop_last();
        let n = (last.len() - 1) as u32;
        law_released_once(rest, pos, v);
        law_released_once(rest, pos, n);
        let before = released(rest, pos);
        let all = released(last, pos);
        if v < n {
            assert(rest[v as int] == last[v as int]);
        }
        if last.last() == pos {
            if before.contains(v) {
                let k = choose|k: int| 0 <= k < before.len() && before[k] == v;
                assert(all[k] == v);
            }
            assert(all[before.len() as int] == n);
            if all.contains(v) && v != n {
                let k = choose|k: int| 0 <= k < all.len() && all[k] == v;
                assert(before[k] == v);
            }
            assert(!before.contains(n));
        }
    }
}

/// No wire that a statement mentions is released before the statement: the
/// operands of a gate, the address and the source of a storage access. Gates
/// need two wires beside their result, a storage access one for each bit of the
/// address and one for the source.
pub proof fn law_operands_are_kept<P: Clone>(
    w: WireSchedule,
    circuit: BCircuit<P>,
    resident: u32,
    i: int,
    v: IRVarId,
)
    requires
        schedule_error(circuit.params, bir_node_kinds(circuit.stmts@), resident) is None,
        w.schedules(
            circuit.params,
            bir_node_kinds(circuit.stmts@),
            circuit.outputs@,
            resident,
        ),
        0 <= i < circuit.stmts@.len(),
        v.0 < circuit.params + circuit.stmts@.len(),
        match circuit.stmts@[i].kind {
            BIrStmt::And(a, b) => v == a || v == b,
            BIrStmt::Or(a, b) => v == a || v == b,
            BIrStmt::Xor(a, b) => v == a || v == b,
            BIrStmt::Not(a) => v == a,
            BIrStmt::StorageRead { addr, .. } => addr@.contains(v),
            BIrStmt::StorageWrite { src, addr, .. } => v == src || addr@.contains(v),
            _ => false,
        },
    ensures
        w.last_use@.len() == circuit.params + circuit.stmts@.len(),
        w.last_use@[v.0 as int] >= i + 1,
        forall|p: int|
            0 <= p < w.release_at@.len() && (#[trigger] w.release_at@[p])@.contains(v.0) ==> p >= i
                + 1,
{
    let stmts = bir_node_kinds(circuit.stmts@);
    assert(stmts[i] == circuit.stmts@[i].kind@);
    assert(operands(stmts[i]).contains(v)) by {
        match circuit.stmts@[i].kind {
            BIrStmt::And(a, b) => {
                assert(seq![a, b][0] == a && seq![a, b][1] == b);
            },
            BIrStmt::Or(a, b) => {
                assert(seq![a, b][0] == a && seq![a, b][1] == b);
            },
            BIrStmt::Xor(a, b) => {
                assert(seq![a, b][0] == a && seq![a, b][1] == b);
            },
            BIrStmt::Not(a) => {
                assert(seq![a][0] == a);
            },
            BIrStmt::StorageWrite { src, addr, .. } => {
                let all = seq![src] + addr@;
                assert(all[0] == src);
                if addr@.contains(v) {
                    let k = choose|k: int| 0 <= k < addr@.len() && addr@[k] == v;
                    assert(all[k + 1] == v);
                }
            },
            _ => {},
        }
    }
    law_needed_until_used(circuit.params, stmts, circuit.outputs@, v, i);
    assert forall|p: int|
        0 <= p < w.release_at@.len() && (#[trigger] w.release_at@[p])@.contains(v.0) implies p >= i
        + 1 by {
        law_released_once(w.last_use@, p, v.0);
    }
}

/// A wire is released exactly once, not before it is defined, and an output not
/// before the end, which is behind the last statement.
pub proof fn law_wires_are_released_once<P: Clone>(
    w: WireSchedule,
    circuit: BCircuit<P>,
    resident: u32,
    v: IRVarId,
)
    requires
        schedule_error(circuit.params, bir_node_kinds(circuit.stmts@), resident) is None,
        circuit.stmts@.len() < u32::MAX,
        w.schedules(
            circuit.params,
            bir_node_kinds(circuit.stmts@),
            circuit.outputs@,
            resident,
        ),
        v.0 < circuit.params + circuit.stmts@.len(),
    ensures
        w.resident_wires == resident,
        w.release_at@.len() == circuit.stmts@.len() + 2,
        v.0 >= circuit.params ==> w.last_use@[v.0 as int] >= v.0 - circuit.params + 1,
        circuit.outputs@.contains(v) ==> w.last_use@[v.0 as int] == circuit.stmts@.len() + 1,
        w.last_use@[v.0 as int] < w.release_at@.len(),
        forall|p: int|
            0 <= p < w.release_at@.len() ==> ((#[trigger] w.release_at@[p])@.contains(v.0) <==> p
                == w.last_use@[v.0 as int]),
        forall|p: int| 0 <= p < w.release_at@.len() ==> (#[trigger] w.release_at@[p])@.no_duplicates(),
{
    let stmts = bir_node_kinds(circuit.stmts@);
    lemma_last_operand_range(circuit.params, stmts, v.0 as int, stmts.len() as int);
    lemma_last_operand_grows(circuit.params, stmts, v.0 as int, 0, stmts.len() as int);
    assert(IRVarId((v.0 as int) as u32) == v);
    assert forall|p: int| 0 <= p < w.release_at@.len() implies ((
    #[trigger] w.release_at@[p])@.contains(v.0) <==> p == w.last_use@[v.0 as int])
        && w.release_at@[p]@.no_duplicates() by {
        law_released_once(w.last_use@, p, v.0);
    }
}

/// A wire is kept no longer than it is needed: it is released where it is
/// defined, at a statement that mentions it, or at the end as an output.
pub proof fn law_wires_are_not_kept_longer<P: Clone>(
    w: WireSchedule,
    circuit: BCircuit<P>,
    resident: u32,
    v: IRVarId,
)
    requires
        schedule_error(circuit.params, bir_node_kinds(circuit.stmts@), resident) is None,
        circuit.stmts@.len() < u32::MAX,
        w.schedules(
            circuit.params,
            bir_node_kinds(circuit.stmts@),
            circuit.outputs@,
            resident,
        ),
        v.0 < circuit.params + circuit.stmts@.len(),
    ensures
        ({
            let p = w.last_use@[v.0 as int] as int;
            ||| p == 0 && v.0 < circuit.params
            ||| p == v.0 - circuit.params + 1
            ||| p == circuit.stmts@.len() + 1 && circuit.outputs@.contains(v)
            ||| 0 < p <= circuit.stmts@.len() && match circuit.stmts@[p - 1].kind {
                BIrStmt::And(a, b) => v == a || v == b,
                BIrStmt::Or(a, b) => v == a || v == b,
                BIrStmt::Xor(a, b) => v == a || v == b,
                BIrStmt::Not(a) => v == a,
                BIrStmt::StorageRead { addr, .. } => addr@.contains(v),
                BIrStmt::StorageWrite { src, addr, .. } => v == src || addr@.contains(v),
                _ => false,
            }
        }),
{
    let stmts = bir_node_kinds(circuit.stmts@);
    let n = stmts.len() as int;
    lemma_last_operand_range(circuit.params, stmts, v.0 as int, n);
    lemma_last_operand_place(circuit.params, stmts, v.0 as int, n);
    assert(IRVarId((v.0 as int) as u32) == v);
    let p = last_operand(circuit.params, stmts, v.0 as int, n);
    if 0 < p <= n && operands(stmts[p - 1]).contains(v) {
        assert(stmts[p - 1] == circuit.stmts@[p - 1].kind@);
        if let BIrStmt::StorageWrite { src, addr, .. } = circuit.stmts@[p - 1].kind {
            let all = seq![src] + addr@;
            let k = choose|k: int| 0 <= k < all.len() && all[k] == v;
            if k > 0 {
                assert(addr@[k - 1] == v);
            }
        }
    }
}

/// Where the last position of a variable comes from.
proof fn lemma_last_operand_place(params: u32, stmts: Seq<BIrStmtView>, v: int, n: int)
    requires
        0 <= n <= stmts.len(),
    ensures
        ({
            let p = last_operand(params, stmts, v, n);
            ||| p == 0 && v < params
            ||| v >= params && p == v - params + 1
            ||| 0 < p <= n && operands(stmts[p - 1]).contains(IRVarId(v as u32))
        }),
    decreases n,
{
    if n > 0 {
        lemma_last_operand_place(params, stmts, v, n - 1);
    }
}

/// The wires beside a result that a statement needs at a time: two for a gate,
/// a negation included, and as many as it has operands for a storage access.
/// The schedule has room for each statement, for no more than the greatest
/// need, and the runner for one wire more.
pub proof fn law_room_for_operands<P: Clone>(
    w: WireSchedule,
    circuit: BCircuit<P>,
    resident: u32,
    i: int,
)
    requires
        schedule_error(circuit.params, bir_node_kinds(circuit.stmts@), resident) is None,
        w.schedules(
            circuit.params,
            bir_node_kinds(circuit.stmts@),
            circuit.outputs@,
            resident,
        ),
        0 <= i < circuit.stmts@.len(),
    ensures
        w.temporary_wires < u32::MAX ==> w.temporary_wires < resident,
        match circuit.stmts@[i].kind {
            BIrStmt::And(..) => w.temporary_wires >= 2,
            BIrStmt::Or(..) => w.temporary_wires >= 2,
            BIrStmt::Xor(..) => w.temporary_wires >= 2,
            BIrStmt::Not(..) => w.temporary_wires >= 2,
            BIrStmt::StorageRead { addr, .. } => w.temporary_wires >= addr@.len(),
            BIrStmt::StorageWrite { addr, .. } => w.temporary_wires >= addr@.len() + 1,
            _ => true,
        },
        w.temporary_wires == 0 || exists|k: int|
            0 <= k < circuit.stmts@.len() && match (#[trigger] circuit.stmts@[k]).kind {
                BIrStmt::And(..) => w.temporary_wires == 2,
                BIrStmt::Or(..) => w.temporary_wires == 2,
                BIrStmt::Xor(..) => w.temporary_wires == 2,
                BIrStmt::Not(..) => w.temporary_wires == 2,
                BIrStmt::StorageRead { addr, .. } => w.temporary_wires == addr@.len(),
                BIrStmt::StorageWrite { addr, .. } => w.temporary_wires == addr@.len() + 1,
                _ => false,
            },
{
    let stmts = bir_node_kinds(circuit.stmts@);
    assert(stmts[i] == circuit.stmts@[i].kind@);
    lemma_most_temporaries(stmts, i + 1, stmts.len() as int);
    assert(stmts.take(stmts.len() as int) =~= stmts);
    assert(stmts.take(i + 1).last() == stmts[i]);
    if w.temporary_wires > 0 {
        let k = lemma_most_temporaries_met(stmts);
        assert(stmts[k] == circuit.stmts@[k].kind@);
    }
}

/// Some statement needs as many wires as the one that needs most.
proof fn lemma_most_temporaries_met(stmts: Seq<BIrStmtView>) -> (k: int)
    requires
        most_temporaries(stmts) > 0,
    ensures
        0 <= k < stmts.len(),
        temporaries(stmts[k]) == most_temporaries(stmts),
    decreases stmts.len(),
{
    let rest = stmts.drop_last();
    if most_temporaries(rest) < temporaries(stmts.last()) {
        stmts.len() - 1
    } else {
        lemma_most_temporaries_met(rest)
    }
}

/// A number of wires is refused exactly if it is not above the need of every
/// statement, and the number that is asked for instead would do: it is above
/// every need by one.
pub proof fn law_too_few_wires_are_refused<P: Clone>(
    circuit: BCircuit<P>,
    resident: u32,
    more: u32,
)
    requires
        circuit.params + circuit.stmts@.len() <= u32::MAX,
        most_temporaries(bir_node_kinds(circuit.stmts@)) < u32::MAX,
    ensures
        match schedule_error(circuit.params, bir_node_kinds(circuit.stmts@), resident) {
            None => true,
            Some(WireScheduleError::InsufficientResidentWires { required, available }) => {
                &&& available == resident
                &&& resident < required
                &&& schedule_error(
                    circuit.params,
                    bir_node_kinds(circuit.stmts@),
                    more,
                ) is None <==> more >= required
            },
            Some(_) => false,
        },
        resident == 0 ==> schedule_error(
            circuit.params,
            bir_node_kinds(circuit.stmts@),
            resident,
        ) is Some,
{
}

/// A circuit with more statements than can be numbered has no schedule.
pub proof fn law_too_many_statements<P: Clone>(circuit: BCircuit<P>, resident: u32)
    requires
        circuit.params + circuit.stmts@.len() > u32::MAX,
    ensures
        schedule_error(circuit.params, bir_node_kinds(circuit.stmts@), resident) == Some(
            WireScheduleError::TooManyStatements,
        ),
{
}

// ---------------------------------------------------------------------------
// Chunks
// ---------------------------------------------------------------------------

/// A consecutive range of the statements of a circuit.
#[derive(PartialEq, Eq, Debug)]
pub struct BStmtChunk<P: Clone> {
    /// The place of the first statement.
    pub first: u32,
    pub stmts: Vec<Node<BIrStmt, P>>,
}

/// Where a range of statements is stored.
#[derive(PartialEq, Eq, Debug)]
pub struct BStmtChunkRef<R> {
    /// What the store calls it.
    pub chunk: R,
    /// The place of the first statement.
    pub first: u32,
    /// The number of statements.
    pub statements: u32,
}

/// A circuit whose statements are stored in ranges.
#[derive(PartialEq, Eq, Debug)]
pub struct ChunkedBCircuit<R> {
    pub version: u32,
    /// The number of input bits.
    pub params: u32,
    /// What storage holds at the start.
    pub pre_init: Vec<BIrPreInitSegment>,
    pub outputs: Vec<IRVarId>,
    /// The ranges, in order.
    pub statement_chunks: Vec<BStmtChunkRef<R>>,
    pub wire_schedule: WireSchedule,
}

/// Turns values into bytes.
pub trait ChunkCodec<T> {
    type Error;

    /// The bytes of a value.
    fn encode(&self, value: &T) -> Result<Vec<u8>, Self::Error>;
}

/// Keeps bytes and says what they are called.
pub trait ChunkSink: Sized {
    type Ref;

    type Error;

    /// Whether putting `bytes` into this store may leave it as `after` with
    /// the reply `reply`.
    spec fn step(self, bytes: Vec<u8>, after: Self, reply: Result<Self::Ref, Self::Error>) -> bool;

    /// Keep bytes.
    fn store(&mut self, bytes: Vec<u8>) -> (r: Result<Self::Ref, Self::Error>)
        ensures
            old(self).step(bytes, *final(self), r),
    ;
}

/// Why a circuit could not be stored in ranges.
#[derive(PartialEq, Eq, Debug)]
pub enum ChunkingError<CodecError, SinkError> {
    /// No bytes are allowed.
    ZeroChunkLimit,
    /// The positions are too many to be numbered.
    TooManyStatements,
    /// The number of wires does not suffice.
    WireSchedule(WireScheduleError),
    /// The bytes of a range could not be had.
    Codec(CodecError),
    /// A range could not be kept.
    Sink(SinkError),
    /// The bytes of a single statement are too many.
    NodeTooLarge { statement: u32, encoded_len: usize, max_chunk_bytes: usize },
}

/// Why a range could not be loaded.
#[derive(PartialEq, Eq, Debug)]
pub enum ChunkLoadError<DecodeError> {
    /// There is no such range.
    MissingChunk { index: usize },
    /// The range could not be fetched and decoded.
    Decode(DecodeError),
    /// What was decoded is another range.
    RangeMismatch {
        index: usize,
        expected_first: u32,
        expected_statements: u32,
        found_first: u32,
        found_statements: usize,
    },
}

/// Whether a chunk holds copies of the statements from `first` to before `end`.
pub open spec fn holds_range<P: Clone>(
    nodes: Seq<Node<BIrStmt, P>>,
    first: int,
    end: int,
    chunk: BStmtChunk<P>,
) -> bool {
    &&& chunk.first == first
    &&& chunk.stmts@.len() == end - first
    &&& forall|i: int|
        0 <= i < end - first ==> bir_node_copied(nodes[first + i], #[trigger] chunk.stmts@[i])
}

/// Whether encoding the statements from `first` to before `end` may give `r`.
pub open spec fn encodes<P: Clone, C: ChunkCodec<BStmtChunk<P>>>(
    codec: &C,
    nodes: Seq<Node<BIrStmt, P>>,
    first: int,
    end: int,
    r: Result<Vec<u8>, C::Error>,
) -> bool {
    exists|chunk: BStmtChunk<P>| #[trigger]
        holds_range(nodes, first, end, chunk) && call_ensures(C::encode, (codec, &chunk), r)
}

/// Whether the statements from `first` to before `end` may encode to more than
/// `max` bytes.
pub open spec fn range_exceeds<P: Clone, C: ChunkCodec<BStmtChunk<P>>>(
    codec: &C,
    nodes: Seq<Node<BIrStmt, P>>,
    first: int,
    end: int,
    max: usize,
) -> bool {
    exists|code: Vec<u8>| #[trigger]
        encodes(codec, nodes, first, end, Ok(code)) && code@.len() > max
}

/// Whether encoding some range from `first` on may fail with `e`.
pub open spec fn encode_fails<P: Clone, C: ChunkCodec<BStmtChunk<P>>>(
    codec: &C,
    nodes: Seq<Node<BIrStmt, P>>,
    first: int,
    e: C::Error,
) -> bool {
    exists|end: int|
        first < end <= nodes.len() && #[trigger] encodes(codec, nodes, first, end, Err(e))
}

/// Where the range behind a list of ranges starts.
pub open spec fn next_first<R>(chunks: Seq<BStmtChunkRef<R>>) -> int {
    if chunks.len() == 0 {
        0
    } else {
        chunks.last().first + chunks.last().statements
    }
}

/// Whether range `k` of a list follows the one before it, is as long as `max`
/// bytes allow, and is what the store keeps of it.
pub open spec fn chunk_kept<P: Clone, C: ChunkCodec<BStmtChunk<P>>, S: ChunkSink>(
    codec: &C,
    nodes: Seq<Node<BIrStmt, P>>,
    max: usize,
    chunks: Seq<BStmtChunkRef<S::Ref>>,
    codes: Seq<Vec<u8>>,
    sinks: Seq<S>,
    k: int,
) -> bool {
    let first = chunks[k].first as int;
    let end = first + chunks[k].statements;
    &&& first == next_first(chunks.take(k))
    &&& first < end <= nodes.len()
    &&& encodes(codec, nodes, first, end, Ok(codes[k]))
    &&& codes[k]@.len() <= max
    &&& end < nodes.len() ==> range_exceeds(codec, nodes, first, end + 1, max)
    &&& sinks[k].step(codes[k], sinks[k + 1], Ok(chunks[k].chunk))
}

/// Whether the statements up to the end of a list of ranges were encoded as
/// `codes` and stored one after the other, the store going through `sinks`.
pub open spec fn kept_so_far<P: Clone, C: ChunkCodec<BStmtChunk<P>>, S: ChunkSink>(
    codec: &C,
    nodes: Seq<Node<BIrStmt, P>>,
    max: usize,
    chunks: Seq<BStmtChunkRef<S::Ref>>,
    codes: Seq<Vec<u8>>,
    sinks: Seq<S>,
) -> bool {
    &&& codes.len() == chunks.len()
    &&& sinks.len() == chunks.len() + 1
    &&& forall|k: int|
        0 <= k < chunks.len() ==> #[trigger] chunk_kept(
            codec,
            nodes,
            max,
            chunks,
            codes,
            sinks,
            k,
        )
}

/// Whether storing a circuit in ranges may have the result `r` and take the
/// store from `before` to `after`.
pub open spec fn chunking_outcome<P: Clone, C: ChunkCodec<BStmtChunk<P>>, S: ChunkSink>(
    codec: &C,
    circuit: BCircuit<P>,
    max: usize,
    resident: u32,
    before: S,
    after: S,
    r: Result<ChunkedBCircuit<S::Ref>, ChunkingError<C::Error, S::Error>>,
) -> bool {
    let nodes = circuit.stmts@;
    let stmts = bir_node_kinds(nodes);
    let unscheduled = schedule_error(circuit.params, stmts, resident);
    if max == 0 {
        r matches Err(ChunkingError::ZeroChunkLimit) && after == before
    } else if unscheduled is Some {
        r matches Err(ChunkingError::WireSchedule(e)) && unscheduled == Some(e) && after == before
    } else {
        match r {
            Ok(m) => {
                &&& m.version == ChunkedBCircuit::<S::Ref>::VERSION
                &&& m.params == circuit.params
                &&& bir_pre_init_views(m.pre_init@) == bir_pre_init_views(circuit.pre_init@)
                &&& m.outputs@ == circuit.outputs@
                &&& m.wire_schedule.schedules(circuit.params, stmts, circuit.outputs@, resident)
                &&& next_first(m.statement_chunks@) == nodes.len()
                &&& exists|codes: Seq<Vec<u8>>, sinks: Seq<S>| #[trigger]
                    kept_so_far(codec, nodes, max, m.statement_chunks@, codes, sinks) && sinks[0]
                        == before && sinks.last() == after
            },
            Err(e) => exists|
                chunks: Seq<BStmtChunkRef<S::Ref>>,
                codes: Seq<Vec<u8>>,
                sinks: Seq<S>,
            | #[trigger]
                kept_so_far(codec, nodes, max, chunks, codes, sinks) && sinks[0] == before
                    && stopped(codec, nodes, max, next_first(chunks), sinks.last(), after, e),
        }
    }
}

/// Whether `e` may stop the storing of the range that starts at `first`.
pub open spec fn stopped<P: Clone, C: ChunkCodec<BStmtChunk<P>>, S: ChunkSink>(
    codec: &C,
    nodes: Seq<Node<BIrStmt, P>>,
    max: usize,
    first: int,
    before: S,
    after: S,
    e: ChunkingError<C::Error, S::Error>,
) -> bool {
    match e {
        ChunkingError::NodeTooLarge { statement, encoded_len, max_chunk_bytes } => {
            &&& after == before
            &&& statement == first
            &&& max_chunk_bytes == max
            &&& encoded_len > max
            &&& first < nodes.len()
            &&& exists|code: Vec<u8>| #[trigger]
                encodes(codec, nodes, first, first + 1, Ok(code)) && code@.len() == encoded_len
        },
        ChunkingError::Codec(c) => {
            &&& after == before
            &&& encode_fails(codec, nodes, first, c)
        },
        ChunkingError::Sink(s) => exists|end: int, code: Vec<u8>|
            first < end <= nodes.len() && #[trigger] encodes(codec, nodes, first, end, Ok(code))
                && before.step(code, after, Err(s)),
        _ => false,
    }
}

/// The chunk of the statements from `first` to before `end`.
fn make_chunk<P: Clone>(nodes: &Vec<Node<BIrStmt, P>>, first: usize, end: usize) -> (r: BStmtChunk<
    P,
>)
    requires
        first <= end <= nodes@.len(),
        nodes@.len() <= u32::MAX,
    ensures
        holds_range(nodes@, first as int, end as int, r),
{
    let mut stmts: Vec<Node<BIrStmt, P>> = Vec::new();
    let mut i: usize = first;
    while i < end
        invariant
            first <= i <= end <= nodes@.len(),
            stmts@.len() == i - first,
            forall|j: int|
                0 <= j < i - first ==> bir_node_copied(nodes@[first + j], #[trigger] stmts@[j]),
        decreases end - i,
    {
        stmts.push(Node::new(nodes[i].kind.clone(), nodes[i].prov.clone(), nodes[i].side));
        i += 1;
    }
    BStmtChunk { first: first as u32, stmts }
}

/// Encode the statements from `first` to before `end`.
fn encode_range<P: Clone, C: ChunkCodec<BStmtChunk<P>>>(
    codec: &C,
    nodes: &Vec<Node<BIrStmt, P>>,
    first: usize,
    end: usize,
) -> (r: Result<Vec<u8>, C::Error>)
    requires
        first <= end <= nodes@.len(),
        nodes@.len() <= u32::MAX,
    ensures
        encodes(codec, nodes@, first as int, end as int, r),
{
    let chunk = make_chunk(nodes, first, end);
    let r = codec.encode(&chunk);
    assert(holds_range(nodes@, first as int, end as int, chunk));
    r
}

/// What the search for the end of a range came to.
enum RangeSearch<E> {
    /// The end of the range, and its bytes.
    Found(usize, Vec<u8>),
    /// The bytes of the first statement are too many.
    TooLarge(usize),
    Failed(E),
}

/// The longest range from `first` on that encodes to at most `max` bytes.
fn search_range<P: Clone, C: ChunkCodec<BStmtChunk<P>>>(
    codec: &C,
    nodes: &Vec<Node<BIrStmt, P>>,
    first: usize,
    max: usize,
) -> (r: RangeSearch<C::Error>)
    requires
        first < nodes@.len(),
        nodes@.len() <= u32::MAX,
    ensures
        match r {
            RangeSearch::Found(end, code) => {
                &&& first < end <= nodes@.len()
                &&& encodes(codec, nodes@, first as int, end as int, Ok(code))
                &&& code@.len() <= max
                &&& end < nodes@.len() ==> range_exceeds(
                    codec,
                    nodes@,
                    first as int,
                    end + 1,
                    max,
                )
            },
            RangeSearch::TooLarge(n) => {
                &&& n > max
                &&& exists|code: Vec<u8>| #[trigger]
                    encodes(codec, nodes@, first as int, first + 1, Ok(code)) && code@.len() == n
            },
            RangeSearch::Failed(e) => encode_fails(codec, nodes@, first as int, e),
        },
{
    let mut end: usize = first + 1;
    let mut code: Vec<u8> = match encode_range(codec, nodes, first, end) {
        Ok(code) => code,
        Err(e) => {
            assert(encodes(codec, nodes@, first as int, end as int, Err(e)));
            assert(encode_fails(codec, nodes@, first as int, e));
            return RangeSearch::Failed(e);
        },
    };
    if code.len() > max {
        return RangeSearch::TooLarge(code.len());
    }
    while end < nodes.len()
        invariant
            first < end <= nodes@.len(),
            nodes@.len() <= u32::MAX,
            encodes(codec, nodes@, first as int, end as int, Ok(code)),
            code@.len() <= max,
        decreases nodes@.len() - end,
    {
        let longer: Vec<u8> = match encode_range(codec, nodes, first, end + 1) {
            Ok(longer) => longer,
            Err(e) => {
                assert(encodes(codec, nodes@, first as int, end + 1, Err(e)));
                assert(encode_fails(codec, nodes@, first as int, e));
                return RangeSearch::Failed(e);
            },
        };
        if longer.len() > max {
            return RangeSearch::Found(end, code);
        }
        code = longer;
        end += 1;
    }
    RangeSearch::Found(end, code)
}

proof fn lemma_kept_push<P: Clone, C: ChunkCodec<BStmtChunk<P>>, S: ChunkSink>(
    codec: &C,
    nodes: Seq<Node<BIrStmt, P>>,
    max: usize,
    chunks: Seq<BStmtChunkRef<S::Ref>>,
    codes: Seq<Vec<u8>>,
    sinks: Seq<S>,
    chunk: BStmtChunkRef<S::Ref>,
    code: Vec<u8>,
    sink: S,
)
    requires
        kept_so_far(codec, nodes, max, chunks, codes, sinks),
        chunk.first == next_first(chunks),
        chunk.statements > 0,
        chunk.first + chunk.statements <= nodes.len(),
        encodes(codec, nodes, chunk.first as int, chunk.first + chunk.statements, Ok(code)),
        code@.len() <= max,
        chunk.first + chunk.statements < nodes.len() ==> range_exceeds(
            codec,
            nodes,
            chunk.first as int,
            chunk.first + chunk.statements + 1,
            max,
        ),
        sinks.last().step(code, sink, Ok(chunk.chunk)),
    ensures
        kept_so_far(
            codec,
            nodes,
            max,
            chunks.push(chunk),
            codes.push(code),
            sinks.push(sink),
        ),
{
    let c = chunks.push(chunk);
    let d = codes.push(code);
    let s = sinks.push(sink);
    assert forall|k: int| 0 <= k < c.len() implies #[trigger] chunk_kept(
        codec,
        nodes,
        max,
        c,
        d,
        s,
        k,
    ) by {
        if k < chunks.len() {
            assert(chunk_kept(codec, nodes, max, chunks, codes, sinks, k));
            assert(c.take(k) =~= chunks.take(k));
        } else {
            assert(c.take(k) =~= chunks);
        }
    }
}

/// Encode the statements of a circuit in ranges of at most `max_chunk_bytes`
/// bytes, each as long as possible, and store them one after the other.
pub fn chunk_b_circuit<P: Clone, C: ChunkCodec<BStmtChunk<P>>, S: ChunkSink>(
    circuit: &BCircuit<P>,
    max_chunk_bytes: usize,
    resident_wires: u32,
    codec: &C,
    sink: &mut S,
) -> (r: Result<ChunkedBCircuit<S::Ref>, ChunkingError<C::Error, S::Error>>)
    ensures
        chunking_outcome(
            codec,
            *circuit,
            max_chunk_bytes,
            resident_wires,
            *old(sink),
            *final(sink),
            r,
        ),
{
    if max_chunk_bytes == 0 {
        return Err(ChunkingError::ZeroChunkLimit);
    }
    let wire_schedule = match WireSchedule::build(circuit, resident_wires) {
        Ok(s) => s,
        Err(e) => {
            return Err(ChunkingError::WireSchedule(e));
        },
    };
    let ghost nodes = circuit.stmts@;
    let ghost start = *sink;
    let mut statement_chunks: Vec<BStmtChunkRef<S::Ref>> = Vec::new();
    let ghost mut codes: Seq<Vec<u8>> = Seq::empty();
    let ghost mut sinks: Seq<S> = seq![*sink];
    let mut first: usize = 0;
    while first < circuit.stmts.len()
        invariant
            first <= circuit.stmts.len(),
            nodes == circuit.stmts@,
            nodes.len() <= u32::MAX,
            max_chunk_bytes > 0,
            schedule_error(circuit.params, bir_node_kinds(nodes), resident_wires) is None,
            wire_schedule.schedules(
                circuit.params,
                bir_node_kinds(nodes),
                circuit.outputs@,
                resident_wires,
            ),
            first == next_first(statement_chunks@),
            kept_so_far(codec, nodes, max_chunk_bytes, statement_chunks@, codes, sinks),
            sinks[0] == start,
            start == *old(sink),
            sinks.last() == *sink,
        decreases circuit.stmts.len() - first,
    {
        let ghost before = *sink;
        match search_range(codec, &circuit.stmts, first, max_chunk_bytes) {
            RangeSearch::Found(end, code) => {
                let ghost kept = code;
                match sink.store(code) {
                    Ok(chunk) => {
                        let entry: BStmtChunkRef<S::Ref> = BStmtChunkRef {
                            chunk,
                            first: first as u32,
                            statements: (end - first) as u32,
                        };
                        proof {
                            lemma_kept_push(
                                codec,
                                nodes,
                                max_chunk_bytes,
                                statement_chunks@,
                                codes,
                                sinks,
                                entry,
                                kept,
                                *sink,
                            );
                            codes = codes.push(kept);
                            sinks = sinks.push(*sink);
                        }
                        statement_chunks.push(entry);
                    },
                    Err(e) => {
                        return Err(ChunkingError::Sink(e));
                    },
                }
                first = end;
            },
            RangeSearch::TooLarge(n) => {
                return Err(
                    ChunkingError::NodeTooLarge {
                        statement: first as u32,
                        encoded_len: n,
                        max_chunk_bytes,
                    },
                );
            },
            RangeSearch::Failed(e) => {
                return Err(ChunkingError::Codec(e));
            },
        }
    }
    let m: ChunkedBCircuit<S::Ref> = ChunkedBCircuit {
        version: ChunkedBCircuit::<S::Ref>::VERSION,
        params: circuit.params,
        pre_init: clone_bir_pre_init(&circuit.pre_init),
        outputs: circuit.outputs.clone(),
        statement_chunks,
        wire_schedule,
    };
    assert(kept_so_far(codec, nodes, max_chunk_bytes, m.statement_chunks@, codes, sinks));
    Ok(m)
}

/// What becomes of a decoded chunk that is to be range `index` of a list.
pub open spec fn load_outcome<R, P: Clone, E>(
    chunks: Seq<BStmtChunkRef<R>>,
    index: usize,
    loaded: Result<BStmtChunk<P>, E>,
    r: Result<BStmtChunk<P>, ChunkLoadError<E>>,
) -> bool {
    match loaded {
        Err(e) => r matches Err(ChunkLoadError::Decode(d)) && d == e,
        Ok(v) => {
            let want = chunks[index as int];
            if v.first == want.first && v.stmts@.len() == want.statements {
                r matches Ok(got) && got == v
            } else {
                r matches Err(
                    ChunkLoadError::RangeMismatch {
                        index: i,
                        expected_first,
                        expected_statements,
                        found_first,
                        found_statements,
                    },
                ) && i == index && expected_first == want.first && expected_statements
                    == want.statements && found_first == v.first && found_statements
                    == v.stmts@.len()
            }
        },
    }
}

impl<R> ChunkedBCircuit<R> {
    /// The version of the format.
    pub const VERSION: u32 = 1;

    /// The number of statements.
    pub fn statement_count(&self) -> (r: u32)
        ensures
            r == (if next_first(self.statement_chunks@) > u32::MAX {
                u32::MAX as int
            } else {
                next_first(self.statement_chunks@)
            }),
    {
        let n: usize = self.statement_chunks.len();
        if n == 0 {
            0
        } else {
            let last = &self.statement_chunks[n - 1];
            last.first.saturating_add(last.statements)
        }
    }

    /// Fetch and decode one range, and check that it is that range. `fetch`
    /// gets and decodes a chunk.
    pub fn load_statement_chunk<P: Clone, E, F: FnOnce(&R) -> Result<BStmtChunk<P>, E>>(
        &self,
        index: usize,
        fetch: F,
    ) -> (r: Result<BStmtChunk<P>, ChunkLoadError<E>>)
        requires
            index < self.statement_chunks@.len() ==> call_requires(
                fetch,
                (&self.statement_chunks@[index as int].chunk,),
            ),
        ensures
            if index < self.statement_chunks@.len() {
                exists|loaded: Result<BStmtChunk<P>, E>| #[trigger]
                    call_ensures(
                        fetch,
                        (&self.statement_chunks@[index as int].chunk,),
                        loaded,
                    ) && load_outcome(self.statement_chunks@, index, loaded, r)
            } else {
                r matches Err(ChunkLoadError::MissingChunk { index: i }) && i == index
            },
    {
        if index >= self.statement_chunks.len() {
            return Err(ChunkLoadError::MissingChunk { index });
        }
        let loaded = fetch(&self.statement_chunks[index].chunk);
        self.check_statement_chunk(index, loaded)
    }

    /// Check that a decoded chunk is range `index`.
    pub fn check_statement_chunk<P: Clone, E>(
        &self,
        index: usize,
        loaded: Result<BStmtChunk<P>, E>,
    ) -> (r: Result<BStmtChunk<P>, ChunkLoadError<E>>)
        requires
            index < self.statement_chunks@.len(),
        ensures
            load_outcome(self.statement_chunks@, index, loaded, r),
    {
        let expected = &self.statement_chunks[index];
        match loaded {
            Err(e) => Err(ChunkLoadError::Decode(e)),
            Ok(v) => {
                if v.first != expected.first || v.stmts.len() != expected.statements as usize {
                    return Err(
                        ChunkLoadError::RangeMismatch {
                            index,
                            expected_first: expected.first,
                            expected_statements: expected.statements,
                            found_first: v.first,
                            found_statements: v.stmts.len(),
                        },
                    );
                }
                Ok(v)
            },
        }
    }
}

/// The ranges of a stored circuit cover every statement once, in order.
pub proof fn law_chunks_cover<P: Clone, C: ChunkCodec<BStmtChunk<P>>, S: ChunkSink>(
    codec: &C,
    nodes: Seq<Node<BIrStmt, P>>,
    max: usize,
    chunks: Seq<BStmtChunkRef<S::Ref>>,
    codes: Seq<Vec<u8>>,
    sinks: Seq<S>,
    i: int,
)
    requires
        kept_so_far(codec, nodes, max, chunks, codes, sinks),
        0 <= i < next_first(chunks),
    ensures
        exists|k: int|
            0 <= k < chunks.len() && (#[trigger] chunks[k]).first <= i < chunks[k].first
                + chunks[k].statements,
        forall|k: int, l: int|
            0 <= k < l < chunks.len() ==> (#[trigger] chunks[k]).first + chunks[k].statements <= (
            #[trigger] chunks[l]).first,
{
    lemma_covered(codec, nodes, max, chunks, codes, sinks, i, chunks.len() as int);
    assert(chunks.take(chunks.len() as int) =~= chunks);
    assert forall|k: int, l: int| 0 <= k < l < chunks.len() implies (#[trigger] chunks[k]).first
        + chunks[k].statements <= (#[trigger] chunks[l]).first by {
        lemma_chunks_ascend(codec, nodes, max, chunks, codes, sinks, k, l);
    }
}

proof fn lemma_covered<P: Clone, C: ChunkCodec<BStmtChunk<P>>, S: ChunkSink>(
    codec: &C,
    nodes: Seq<Node<BIrStmt, P>>,
    max: usize,
    chunks: Seq<BStmtChunkRef<S::Ref>>,
    codes: Seq<Vec<u8>>,
    sinks: Seq<S>,
    i: int,
    n: int,
)
    requires
        kept_so_far(codec, nodes, max, chunks, codes, sinks),
        0 <= n <= chunks.len(),
        0 <= i < next_first(chunks.take(n)),
    ensures
        exists|k: int|
            0 <= k < chunks.len() && (#[trigger] chunks[k]).first <= i < chunks[k].first
                + chunks[k].statements,
    decreases n,
{
    if n > 0 {
        assert(chunk_kept(codec, nodes, max, chunks, codes, sinks, n - 1));
        assert(chunks.take(n).last() == chunks[n - 1]);
        if i < chunks[n - 1].first {
            lemma_covered(codec, nodes, max, chunks, codes, sinks, i, n - 1);
        }
    }
}

proof fn lemma_chunks_ascend<P: Clone, C: ChunkCodec<BStmtChunk<P>>, S: ChunkSink>(
    codec: &C,
    nodes: Seq<Node<BIrStmt, P>>,
    max: usize,
    chunks: Seq<BStmtChunkRef<S::Ref>>,
    codes: Seq<Vec<u8>>,
    sinks: Seq<S>,
    k: int,
    l: int,
)
    requires
        kept_so_far(codec, nodes, max, chunks, codes, sinks),
        0 <= k < l < chunks.len(),
    ensures
        chunks[k].first + chunks[k].statements <= chunks[l].first,
    decreases l - k,
{
    assert(chunk_kept(codec, nodes, max, chunks, codes, sinks, l));
    assert(chunks.take(l).last() == chunks[l - 1]);
    if k < l - 1 {
        lemma_chunks_ascend(codec, nodes, max, chunks, codes, sinks, k, l - 1);
    }
}

/// A stored range that decodes to what was encoded passes the check.
pub proof fn law_stored_range_loads<P: Clone, C: ChunkCodec<BStmtChunk<P>>, S: ChunkSink, E>(
    codec: &C,
    nodes: Seq<Node<BIrStmt, P>>,
    max: usize,
    chunks: Seq<BStmtChunkRef<S::Ref>>,
    codes: Seq<Vec<u8>>,
    sinks: Seq<S>,
    index: usize,
    chunk: BStmtChunk<P>,
    r: Result<BStmtChunk<P>, ChunkLoadError<E>>,
)
    requires
        kept_so_far(codec, nodes, max, chunks, codes, sinks),
        index < chunks.len(),
        holds_range(
            nodes,
            chunks[index as int].first as int,
            chunks[index as int].first + chunks[index as int].statements,
            chunk,
        ),
        load_outcome(chunks, index, Ok(chunk), r),
    ensures
        r == Ok::<BStmtChunk<P>, ChunkLoadError<E>>(chunk),
{
}

/// A circuit that was stored is described as it is: version 1, its inputs, its
/// outputs and its initial storage; its ranges follow one another without a gap
/// from the first statement to the last, none is empty, and the bytes of each
/// are within the limit. Statement `i` of the circuit is statement
/// `i - first` of the range that covers it.
pub proof fn law_stored_circuit<P: Clone, C: ChunkCodec<BStmtChunk<P>>, S: ChunkSink>(
    codec: &C,
    circuit: BCircuit<P>,
    max: usize,
    resident: u32,
    before: S,
    after: S,
    m: ChunkedBCircuit<S::Ref>,
)
    requires
        chunking_outcome(
            codec,
            circuit,
            max,
            resident,
            before,
            after,
            Ok::<ChunkedBCircuit<S::Ref>, ChunkingError<C::Error, S::Error>>(m),
        ),
    ensures
        max > 0,
        m.version == 1,
        m.params == circuit.params,
        m.outputs@ == circuit.outputs@,
        m.wire_schedule.resident_wires == resident,
        circuit.stmts@.len() == 0 <==> m.statement_chunks@.len() == 0,
        forall|k: int|
            0 <= k < m.statement_chunks@.len() ==> (#[trigger] m.statement_chunks@[k]).statements
                > 0 && m.statement_chunks@[k].first + m.statement_chunks@[k].statements
                <= circuit.stmts@.len(),
        m.statement_chunks@.len() > 0 ==> m.statement_chunks@[0].first == 0
            && m.statement_chunks@.last().first + m.statement_chunks@.last().statements
            == circuit.stmts@.len(),
        forall|k: int|
            0 < k < m.statement_chunks@.len() ==> (#[trigger] m.statement_chunks@[k]).first
                == m.statement_chunks@[k - 1].first + m.statement_chunks@[k - 1].statements,
        exists|codes: Seq<Vec<u8>>|
            #![trigger codes.len()]
            codes.len() == m.statement_chunks@.len() && forall|k: int|
                0 <= k < codes.len() ==> (#[trigger] codes[k])@.len() <= max && exists|
                    chunk: BStmtChunk<P>,
                | #[trigger]
                    call_ensures(C::encode, (codec, &chunk), Ok(codes[k])) && chunk.first
                        == m.statement_chunks@[k].first && chunk.stmts@.len()
                        == m.statement_chunks@[k].statements && forall|i: int|
                        0 <= i < chunk.stmts@.len() ==> (#[trigger] chunk.stmts@[i]).kind@
                            == circuit.stmts@[chunk.first + i].kind@,
{
    let nodes = circuit.stmts@;
    let chunks = m.statement_chunks@;
    let (codes, sinks) = choose|codes: Seq<Vec<u8>>, sinks: Seq<S>| #[trigger]
        kept_so_far(codec, nodes, max, chunks, codes, sinks) && sinks[0] == before && sinks.last()
            == after;
    assert forall|k: int| 0 <= k < chunks.len() implies #[trigger] chunk_kept(
        codec,
        nodes,
        max,
        chunks,
        codes,
        sinks,
        k,
    ) && (k == 0 ==> chunks[k].first == 0) && (k > 0 ==> chunks[k].first == chunks[k - 1].first
        + chunks[k - 1].statements) by {
        assert(chunk_kept(codec, nodes, max, chunks, codes, sinks, k));
        if k > 0 {
            assert(chunks.take(k).last() == chunks[k - 1]);
        } else {
            assert(chunks.take(k).len() == 0);
        }
    }
    assert forall|k: int| 0 <= k < chunks.len() implies (#[trigger] chunks[k]).statements > 0
        && chunks[k].first + chunks[k].statements <= nodes.len() by {
        assert(chunk_kept(codec, nodes, max, chunks, codes, sinks, k));
    }
    assert forall|k: int| 0 < k < chunks.len() implies (#[trigger] chunks[k]).first == chunks[k
        - 1].first + chunks[k - 1].statements by {
        assert(chunk_kept(codec, nodes, max, chunks, codes, sinks, k));
    }
    if chunks.len() > 0 {
        assert(chunk_kept(codec, nodes, max, chunks, codes, sinks, 0));
    }
    assert(codes.len() == chunks.len());
    assert forall|k: int| 0 <= k < codes.len() implies (#[trigger] codes[k])@.len() <= max
        && exists|chunk: BStmtChunk<P>| #[trigger]
        call_ensures(C::encode, (codec, &chunk), Ok(codes[k])) && chunk.first == chunks[k].first
            && chunk.stmts@.len() == chunks[k].statements && forall|i: int|
            0 <= i < chunk.stmts@.len() ==> (#[trigger] chunk.stmts@[i]).kind@ == nodes[chunk.first
                + i].kind@ by {
        assert(chunk_kept(codec, nodes, max, chunks, codes, sinks, k));
        let first = chunks[k].first as int;
        let end = first + chunks[k].statements;
        let chunk = choose|chunk: BStmtChunk<P>| #[trigger]
            holds_range(nodes, first, end, chunk) && call_ensures(
                C::encode,
                (codec, &chunk),
                Ok(codes[k]),
            );
        assert(call_ensures(C::encode, (codec, &chunk), Ok(codes[k])));
        assert forall|i: int| 0 <= i < chunk.stmts@.len() implies (
        #[trigger] chunk.stmts@[i]).kind@ == nodes[chunk.first + i].kind@ by {
            assert(bir_node_copied(nodes[first + i], chunk.stmts@[i]));
        }
    }
}

/// Nothing is stored where no bytes are allowed or the wires do not suffice,
/// and the refusal says which.
pub proof fn law_refused_before_storing<P: Clone, C: ChunkCodec<BStmtChunk<P>>, S: ChunkSink>(
    codec: &C,
    circuit: BCircuit<P>,
    max: usize,
    resident: u32,
    before: S,
    after: S,
    r: Result<ChunkedBCircuit<S::Ref>, ChunkingError<C::Error, S::Error>>,
)
    requires
        chunking_outcome(codec, circuit, max, resident, before, after, r),
        max == 0 || schedule_error(
            circuit.params,
            bir_node_kinds(circuit.stmts@),
            resident,
        ) is Some,
    ensures
        after == before,
        max == 0 ==> r == Err::<ChunkedBCircuit<S::Ref>, _>(
            ChunkingError::<C::Error, S::Error>::ZeroChunkLimit,
        ),
        max > 0 ==> r is Err && r->Err_0 is WireSchedule,
{
}

/// A range passes the check exactly if it starts where the circuit says and has
/// as many statements, and what passes is what was decoded.
pub proof fn law_only_the_range_passes<R, P: Clone, E>(
    chunks: Seq<BStmtChunkRef<R>>,
    index: usize,
    chunk: BStmtChunk<P>,
    r: Result<BStmtChunk<P>, ChunkLoadError<E>>,
)
    requires
        index < chunks.len(),
        load_outcome(chunks, index, Ok(chunk), r),
    ensures
        r is Ok <==> chunk.first == chunks[index as int].first && chunk.stmts@.len()
            == chunks[index as int].statements,
        r is Ok ==> r->Ok_0 == chunk,
        r is Err ==> r->Err_0 is RangeMismatch && r->Err_0->RangeMismatch_index == index
            && r->Err_0->RangeMismatch_expected_first == chunks[index as int].first
            && r->Err_0->RangeMismatch_found_first == chunk.first
            && r->Err_0->RangeMismatch_expected_statements == chunks[index as int].statements
            && r->Err_0->RangeMismatch_found_statements == chunk.stmts@.len(),
{
}

// ---------------------------------------------------------------------------
// Messages
// ---------------------------------------------------------------------------

/// How an error of a schedule is written.
pub open spec fn schedule_error_text(e: WireScheduleError) -> Seq<char> {
    match e {
        WireScheduleError::InsufficientResidentWires { required, available } =>
        "InsufficientResidentWires { required: "@ + dec(required as nat) + ", available: "@ + dec(
            available as nat,
        ) + " }"@,
        WireScheduleError::TooManyStatements => "TooManyStatements"@,
    }
}

impl<CodecError, SinkError> ChunkingError<CodecError, SinkError> {
    /// The message, given the text of the codec's or store's own error.
    pub open spec fn text(self, inner: Seq<char>) -> Seq<char> {
        match self {
            ChunkingError::ZeroChunkLimit => "lazy Boolar chunk size must be non-zero"@,
            ChunkingError::TooManyStatements => "Boolar circuit exceeds u32 statement indexing"@,
            ChunkingError::WireSchedule(e) => "invalid Boolar wire schedule: "@
                + schedule_error_text(e),
            ChunkingError::Codec(_) => "failed to encode Boolar chunk: "@ + inner,
            ChunkingError::Sink(_) => "failed to store Boolar chunk: "@ + inner,
            ChunkingError::NodeTooLarge { statement, encoded_len, max_chunk_bytes } =>
            "Boolar statement "@ + dec(statement as nat) + " encodes to "@ + dec(
                encoded_len as nat,
            ) + " bytes, above chunk cap "@ + dec(max_chunk_bytes as nat),
        }
    }

    /// The message, given the text of the codec's or store's own error.
    pub fn message(&self, inner: &str) -> (r: String)
        ensures
            r@ == self.text(inner@),
    {
        match self {
            ChunkingError::ZeroChunkLimit => "lazy Boolar chunk size must be non-zero".to_owned(),
            ChunkingError::TooManyStatements =>
            "Boolar circuit exceeds u32 statement indexing".to_owned(),
            ChunkingError::WireSchedule(e) => {
                let mut s = "invalid Boolar wire schedule: ".to_owned();
                match e {
                    WireScheduleError::InsufficientResidentWires { required, available } => {
                        s.push_str("InsufficientResidentWires { required: ");
                        push_dec(&mut s, *required as u128);
                        s.push_str(", available: ");
                        push_dec(&mut s, *available as u128);
                        s.push_str(" }");
                    },
                    WireScheduleError::TooManyStatements => {
                        s.push_str("TooManyStatements");
                    },
                }
                assert(s@ =~= self.text(inner@));
                s
            },
            ChunkingError::Codec(_) => {
                let mut s = "failed to encode Boolar chunk: ".to_owned();
                s.push_str(inner);
                s
            },
            ChunkingError::Sink(_) => {
                let mut s = "failed to store Boolar chunk: ".to_owned();
                s.push_str(inner);
                s
            },
            ChunkingError::NodeTooLarge { statement, encoded_len, max_chunk_bytes } => {
                let mut s = "Boolar statement ".to_owned();
                push_dec(&mut s, *statement as u128);
                s.push_str(" encodes to ");
                push_dec(&mut s, *encoded_len as u128);
                s.push_str(" bytes, above chunk cap ");
                push_dec(&mut s, *max_chunk_bytes as u128);
                assert(s@ =~= self.text(inner@));
                s
            },
        }
    }
}

/// What is stored of a statement is a copy of it, with its side and provenance,
/// and initial storage is copied whole.
pub proof fn law_stored_copies<P: Clone, C: ChunkCodec<BStmtChunk<P>>, S: ChunkSink>(
    codec: &C,
    circuit: BCircuit<P>,
    max: usize,
    resident: u32,
    before: S,
    after: S,
    m: ChunkedBCircuit<S::Ref>,
    k: int,
)
    requires
        chunking_outcome(
            codec,
            circuit,
            max,
            resident,
            before,
            after,
            Ok::<ChunkedBCircuit<S::Ref>, ChunkingError<C::Error, S::Error>>(m),
        ),
        0 <= k < m.statement_chunks@.len(),
    ensures
        m.pre_init@.len() == circuit.pre_init@.len(),
        forall|i: int|
            0 <= i < m.pre_init@.len() ==> (#[trigger] m.pre_init@[i])@ == circuit.pre_init@[i]@,
        exists|chunk: BStmtChunk<P>, code: Vec<u8>| #[trigger]
            call_ensures(C::encode, (codec, &chunk), Ok(code)) && code@.len() <= max && chunk.first
                == m.statement_chunks@[k].first && chunk.stmts@.len()
                == m.statement_chunks@[k].statements && forall|i: int|
                0 <= i < chunk.stmts@.len() ==> {
                    let node = circuit.stmts@[chunk.first + i];
                    &&& (#[trigger] chunk.stmts@[i]).kind@ == node.kind@
                    &&& chunk.stmts@[i].side == node.side
                    &&& cloned(node.prov, chunk.stmts@[i].prov)
                },
        k < m.statement_chunks@.len() - 1 ==> exists|chunk: BStmtChunk<P>, code: Vec<u8>| #[trigger]
            call_ensures(C::encode, (codec, &chunk), Ok(code)) && code@.len() > max && chunk.first
                == m.statement_chunks@[k].first && chunk.stmts@.len()
                == m.statement_chunks@[k].statements + 1 && forall|i: int|
                0 <= i < chunk.stmts@.len() ==> (#[trigger] chunk.stmts@[i]).kind@
                    == circuit.stmts@[chunk.first + i].kind@,
{
    let nodes = circuit.stmts@;
    let chunks = m.statement_chunks@;
    let (codes, sinks) = choose|codes: Seq<Vec<u8>>, sinks: Seq<S>| #[trigger]
        kept_so_far(codec, nodes, max, chunks, codes, sinks) && sinks[0] == before && sinks.last()
            == after;
    assert(bir_pre_init_views(m.pre_init@) == bir_pre_init_views(circuit.pre_init@));
    assert(bir_pre_init_views(m.pre_init@).len() == m.pre_init@.len());
    assert forall|i: int| 0 <= i < m.pre_init@.len() implies (#[trigger] m.pre_init@[i])@
        == circuit.pre_init@[i]@ by {
        assert(bir_pre_init_views(m.pre_init@)[i] == m.pre_init@[i]@);
        assert(bir_pre_init_views(circuit.pre_init@)[i] == circuit.pre_init@[i]@);
    }
    assert(chunk_kept(codec, nodes, max, chunks, codes, sinks, k));
    let first = chunks[k].first as int;
    let end = first + chunks[k].statements;
    let chunk = choose|chunk: BStmtChunk<P>| #[trigger]
        holds_range(nodes, first, end, chunk) && call_ensures(
            C::encode,
            (codec, &chunk),
            Ok(codes[k]),
        );
    assert(holds_range(nodes, first, end, chunk));
    assert(call_ensures(C::encode, (codec, &chunk), Ok(codes[k])));
    assert forall|i: int| 0 <= i < chunk.stmts@.len() implies {
        let node = circuit.stmts@[chunk.first + i];
        &&& (#[trigger] chunk.stmts@[i]).kind@ == node.kind@
        &&& chunk.stmts@[i].side == node.side
        &&& cloned(node.prov, chunk.stmts@[i].prov)
    } by {
        assert(bir_node_copied(nodes[first + i], chunk.stmts@[i]));
    }
    if k < chunks.len() - 1 {
        assert(chunk_kept(codec, nodes, max, chunks, codes, sinks, k + 1));
        assert(chunks.take(k + 1).last() == chunks[k]);
        assert(end < nodes.len());
        let code = choose|code: Vec<u8>| #[trigger]
            encodes(codec, nodes, first, end + 1, Ok(code)) && code@.len() > max;
        assert(encodes(codec, nodes, first, end + 1, Ok(code)));
        let more = choose|more: BStmtChunk<P>| #[trigger]
            holds_range(nodes, first, end + 1, more) && call_ensures(
                C::encode,
                (codec, &more),
                Ok(code),
            );
        assert(holds_range(nodes, first, end + 1, more));
        assert(call_ensures(C::encode, (codec, &more), Ok(code)));
        assert forall|i: int| 0 <= i < more.stmts@.len() implies (#[trigger] more.stmts@[i]).kind@
            == circuit.stmts@[more.first + i].kind@ by {
            assert(bir_node_copied(nodes[first + i], more.stmts@[i]));
        }
    }
}

/// Ranges are stored one after the other: each store is handed the bytes of the
/// next range and gives the reference that is kept for it.
pub proof fn law_stored_in_turn<P: Clone, C: ChunkCodec<BStmtChunk<P>>, S: ChunkSink>(
    codec: &C,
    circuit: BCircuit<P>,
    max: usize,
    resident: u32,
    before: S,
    after: S,
    m: ChunkedBCircuit<S::Ref>,
)
    requires
        chunking_outcome(
            codec,
            circuit,
            max,
            resident,
            before,
            after,
            Ok::<ChunkedBCircuit<S::Ref>, ChunkingError<C::Error, S::Error>>(m),
        ),
    ensures
        exists|codes: Seq<Vec<u8>>, sinks: Seq<S>|
            #![trigger codes.len(), sinks.len()]
            codes.len() == m.statement_chunks@.len() && sinks.len() == codes.len() + 1 && sinks[0]
                == before && sinks.last() == after && forall|k: int|
                #![trigger codes[k]]
                0 <= k < codes.len() ==> sinks[k].step(
                    codes[k],
                    sinks[k + 1],
                    Ok(m.statement_chunks@[k].chunk),
                ),
        m.statement_chunks@.len() == 0 ==> after == before,
{
    let nodes = circuit.stmts@;
    let chunks = m.statement_chunks@;
    let (codes, sinks) = choose|codes: Seq<Vec<u8>>, sinks: Seq<S>| #[trigger]
        kept_so_far(codec, nodes, max, chunks, codes, sinks) && sinks[0] == before && sinks.last()
            == after;
    assert forall|k: int| #![trigger codes[k]] 0 <= k < codes.len() implies sinks[k].step(
        codes[k],
        sinks[k + 1],
        Ok(chunks[k].chunk),
    ) by {
        assert(chunk_kept(codec, nodes, max, chunks, codes, sinks, k));
    }
    assert(codes.len() == chunks.len() && sinks.len() == codes.len() + 1);
}

/// Storing stops for three reasons: a single statement has too many bytes, and
/// then it is told which one, how many bytes it has and how many are allowed; or
/// the codec fails; or the store fails.
pub proof fn law_why_storing_stops<P: Clone, C: ChunkCodec<BStmtChunk<P>>, S: ChunkSink>(
    codec: &C,
    circuit: BCircuit<P>,
    max: usize,
    resident: u32,
    before: S,
    after: S,
    e: ChunkingError<C::Error, S::Error>,
)
    requires
        max > 0,
        schedule_error(circuit.params, bir_node_kinds(circuit.stmts@), resident) is None,
        chunking_outcome(
            codec,
            circuit,
            max,
            resident,
            before,
            after,
            Err::<ChunkedBCircuit<S::Ref>, ChunkingError<C::Error, S::Error>>(e),
        ),
    ensures
        match e {
            ChunkingError::NodeTooLarge { statement, encoded_len, max_chunk_bytes } => {
                &&& max_chunk_bytes == max
                &&& encoded_len > max
                &&& statement < circuit.stmts@.len()
                &&& exists|chunk: BStmtChunk<P>, code: Vec<u8>| #[trigger]
                    call_ensures(C::encode, (codec, &chunk), Ok(code)) && code@.len() == encoded_len
                        && chunk.first == statement && chunk.stmts@.len() == 1
                        && chunk.stmts@[0].kind@ == circuit.stmts@[statement as int].kind@
            },
            ChunkingError::Codec(c) => exists|chunk: BStmtChunk<P>| #[trigger]
                call_ensures(C::encode, (codec, &chunk), Err(c)),
            ChunkingError::Sink(s) => exists|sink: S, code: Vec<u8>| #[trigger]
                sink.step(code, after, Err(s)),
            _ => false,
        },
{
    let nodes = circuit.stmts@;
    let (chunks, codes, sinks) = choose|
        chunks: Seq<BStmtChunkRef<S::Ref>>,
        codes: Seq<Vec<u8>>,
        sinks: Seq<S>,
    | #[trigger]
        kept_so_far(codec, nodes, max, chunks, codes, sinks) && sinks[0] == before && stopped(
            codec,
            nodes,
            max,
            next_first(chunks),
            sinks.last(),
            after,
            e,
        );
    let first = next_first(chunks);
    match e {
        ChunkingError::NodeTooLarge { statement, encoded_len, max_chunk_bytes } => {
            let code = choose|code: Vec<u8>| #[trigger]
                encodes(codec, nodes, first, first + 1, Ok(code)) && code@.len() == encoded_len;
            assert(encodes(codec, nodes, first, first + 1, Ok(code)));
            let chunk = choose|chunk: BStmtChunk<P>| #[trigger]
                holds_range(nodes, first, first + 1, chunk) && call_ensures(
                    C::encode,
                    (codec, &chunk),
                    Ok(code),
                );
            assert(holds_range(nodes, first, first + 1, chunk));
            assert(bir_node_copied(nodes[first + 0], chunk.stmts@[0]));
            assert(call_ensures(C::encode, (codec, &chunk), Ok(code)));
        },
        ChunkingError::Codec(c) => {
            let end = choose|end: int|
                first < end <= nodes.len() && #[trigger] encodes(codec, nodes, first, end, Err(c));
            let chunk = choose|chunk: BStmtChunk<P>| #[trigger]
                holds_range(nodes, first, end, chunk) && call_ensures(
                    C::encode,
                    (codec, &chunk),
                    Err(c),
                );
            assert(call_ensures(C::encode, (codec, &chunk), Err(c)));
        },
        ChunkingError::Sink(s) => {
            let (end, code) = choose|end: int, code: Vec<u8>|
                first < end <= nodes.len() && #[trigger] encodes(codec, nodes, first, end, Ok(code))
                    && sinks.last().step(code, after, Err(s));
            assert(sinks.last().step(code, after, Err(s)));
        },
        _ => {},
    }
}

/// What is said of each error.
pub proof fn law_chunking_messages<C, S>(e: ChunkingError<C, S>, inner: Seq<char>)
    ensures
        match e {
            ChunkingError::ZeroChunkLimit => e.text(inner)
                == "lazy Boolar chunk size must be non-zero"@,
            ChunkingError::TooManyStatements => e.text(inner)
                == "Boolar circuit exceeds u32 statement indexing"@,
            ChunkingError::WireSchedule(
                WireScheduleError::InsufficientResidentWires { required, available },
            ) => e.text(inner) == "invalid Boolar wire schedule: "@ + (
            "InsufficientResidentWires { required: "@ + dec(required as nat) + ", available: "@
                + dec(available as nat) + " }"@),
            ChunkingError::WireSchedule(WireScheduleError::TooManyStatements) => e.text(inner)
                == "invalid Boolar wire schedule: "@ + "TooManyStatements"@,
            ChunkingError::Codec(_) => e.text(inner) == "failed to encode Boolar chunk: "@ + inner,
            ChunkingError::Sink(_) => e.text(inner) == "failed to store Boolar chunk: "@ + inner,
            ChunkingError::NodeTooLarge { statement, encoded_len, max_chunk_bytes } => e.text(inner)
                == "Boolar statement "@ + dec(statement as nat) + " encodes to "@ + dec(
                encoded_len as nat,
            ) + " bytes, above chunk cap "@ + dec(max_chunk_bytes as nat),
        },
{
}

} // verus!
