//! Boolean statements with other variables and storage spaces in place of
//! theirs.

use vstd::prelude::*;

use crate::boolar::{BIrStmt, BIrStmtView};
use crate::vars::{
    by_function, each_mut, each_ref, lemma_translated_both, lemma_translated_cut,
    lemma_translated_none, lemma_translated_one, listed, map_list, single, steps, total, translated,
};

verus! {

/// A place of a statement that another variable or storage space can take.
pub enum Slot<V, S> {
    Var(V),
    Stor(S),
}

/// One variable.
pub open spec fn var_slot<V, S>(v: V) -> Seq<Slot<V, S>> {
    seq![Slot::Var(v)]
}

/// Variables.
pub open spec fn var_slots<V, S>(vs: Seq<V>) -> Seq<Slot<V, S>> {
    vs.map_values(|v: V| Slot::Var(v))
}

/// One storage space.
pub open spec fn stor_slot<V, S>(s: S) -> Seq<Slot<V, S>> {
    seq![Slot::Stor(s)]
}

/// The variables and storage spaces of a statement, in order.
pub open spec fn stmt_slots<V, S>(s: BIrStmtView<V, S>) -> Seq<Slot<V, S>> {
    match s {
        BIrStmtView::Zero => Seq::empty(),
        BIrStmtView::One => Seq::empty(),
        BIrStmtView::And(a0, a1) => var_slot(a0) + var_slot(a1),
        BIrStmtView::Or(a0, a1) => var_slot(a0) + var_slot(a1),
        BIrStmtView::Xor(a0, a1) => var_slot(a0) + var_slot(a1),
        BIrStmtView::Not(a0) => var_slot(a0),
        BIrStmtView::OracleCall { args, .. } => var_slots(args),
        BIrStmtView::OracleBit { args, .. } => var_slots(args),
        BIrStmtView::OracleProjectedBit { call, .. } => var_slot(call),
        BIrStmtView::ActionCall { guard, args, fallback, .. } => var_slot(guard) + var_slots(args) + var_slots(fallback),
        BIrStmtView::ActionBit { call, .. } => var_slot(call),
        BIrStmtView::ActionStoreBit { guard, args, fallback, storage, addr, .. } => var_slot(guard) + var_slots(args) + var_slot(fallback) + stor_slot(storage) + var_slots(addr),
        BIrStmtView::Rng { .. } => Seq::empty(),
        BIrStmtView::RngBit { .. } => Seq::empty(),
        BIrStmtView::StorageRead { storage, addr, .. } => stor_slot(storage) + var_slots(addr),
        BIrStmtView::StorageWrite { storage, src, addr, .. } => stor_slot(storage) + var_slot(src) + var_slots(addr),
    }
}

/// Whether two statements are the same but for their variables and storage
/// spaces.
pub open spec fn same_stmt<V, S, W, T>(a: BIrStmtView<V, S>, b: BIrStmtView<W, T>) -> bool {
    match a {
        BIrStmtView::Zero => b is Zero,
        BIrStmtView::One => b is One,
        BIrStmtView::And(_, _) => b is And,
        BIrStmtView::Or(_, _) => b is Or,
        BIrStmtView::Xor(_, _) => b is Xor,
        BIrStmtView::Not(_) => b is Not,
        BIrStmtView::OracleCall { name, args, num_bits, .. } => b matches BIrStmtView::OracleCall { name: name2, args: args2, num_bits: num_bits2, .. } && name == name2 && args.len() == args2.len() && num_bits == num_bits2,
        BIrStmtView::OracleBit { name, args, bit, occurrence, .. } => b matches BIrStmtView::OracleBit { name: name2, args: args2, bit: bit2, occurrence: occurrence2, .. } && name == name2 && args.len() == args2.len() && bit == bit2 && occurrence == occurrence2,
        BIrStmtView::OracleProjectedBit { bit, .. } => b matches BIrStmtView::OracleProjectedBit { bit: bit2, .. } && bit == bit2,
        BIrStmtView::ActionCall { name, args, fallback, num_bits, .. } => b matches BIrStmtView::ActionCall { name: name2, args: args2, fallback: fallback2, num_bits: num_bits2, .. } && name == name2 && args.len() == args2.len() && fallback.len() == fallback2.len() && num_bits == num_bits2,
        BIrStmtView::ActionBit { bit, .. } => b matches BIrStmtView::ActionBit { bit: bit2, .. } && bit == bit2,
        BIrStmtView::ActionStoreBit { name, args, lane, addr, bit, occurrence, .. } => b matches BIrStmtView::ActionStoreBit { name: name2, args: args2, lane: lane2, addr: addr2, bit: bit2, occurrence: occurrence2, .. } && name == name2 && args.len() == args2.len() && lane == lane2 && addr.len() == addr2.len() && bit == bit2 && occurrence == occurrence2,
        BIrStmtView::Rng { name, .. } => b matches BIrStmtView::Rng { name: name2, .. } && name == name2,
        BIrStmtView::RngBit { name, bit, occurrence, .. } => b matches BIrStmtView::RngBit { name: name2, bit: bit2, occurrence: occurrence2, .. } && name == name2 && bit == bit2 && occurrence == occurrence2,
        BIrStmtView::StorageRead { lane, addr, .. } => b matches BIrStmtView::StorageRead { lane: lane2, addr: addr2, .. } && lane == lane2 && addr.len() == addr2.len(),
        BIrStmtView::StorageWrite { lane, addr, .. } => b matches BIrStmtView::StorageWrite { lane: lane2, addr: addr2, .. } && lane == lane2 && addr.len() == addr2.len(),
    }
}

/// What two functions, one for variables and one for storage spaces, may do to
/// a context and a place.
pub open spec fn by_functions<
    C,
    V,
    S,
    W,
    T,
    E,
    F: Fn(C, V) -> (C, Result<W, E>),
    G: Fn(C, S) -> (C, Result<T, E>),
>(var_fn: F, stor_fn: G) -> spec_fn(C, Slot<V, S>, C, Result<Slot<W, T>, E>) -> bool {
    |c0: C, x: Slot<V, S>, c1: C, r: Result<Slot<W, T>, E>|
        match x {
            Slot::Var(v) => match r {
                Ok(Slot::Var(w)) => call_ensures(var_fn, (c0, v), (c1, Ok(w))),
                Ok(Slot::Stor(_)) => false,
                Err(e) => call_ensures(var_fn, (c0, v), (c1, Err(e))),
            },
            Slot::Stor(s) => match r {
                Ok(Slot::Stor(t)) => call_ensures(stor_fn, (c0, s), (c1, Ok(t))),
                Ok(Slot::Var(_)) => false,
                Err(e) => call_ensures(stor_fn, (c0, s), (c1, Err(e))),
            },
        }
}

/// The places of the outcome for a list of variables.
pub open spec fn var_outcome<W, T, E>(r: Result<Seq<W>, E>) -> Result<Seq<Slot<W, T>>, E> {
    match r {
        Ok(ws) => Ok(var_slots(ws)),
        Err(e) => Err(e),
    }
}

/// The places of the outcome for one storage space.
pub open spec fn stor_outcome<W, T, E>(r: Result<T, E>) -> Result<Seq<Slot<W, T>>, E> {
    match r {
        Ok(t) => Ok(stor_slot(t)),
        Err(e) => Err(e),
    }
}

/// The places of an outcome.
pub open spec fn stmt_outcome<W, T, E>(r: Result<BIrStmt<W, T>, E>) -> Result<Seq<Slot<W, T>>, E> {
    match r {
        Ok(s) => Ok(stmt_slots(s@)),
        Err(e) => Err(e),
    }
}

/// Translating variables is translating their places.
proof fn lemma_var_places<
    C,
    V,
    S,
    W,
    T,
    E,
    F: Fn(C, V) -> (C, Result<W, E>),
    G: Fn(C, S) -> (C, Result<T, E>),
>(var_fn: F, stor_fn: G, vs: Seq<V>, c0: C, c1: C, r: Result<Seq<W>, E>)
    requires
        translated(by_function::<C, V, W, E, F>(var_fn), vs, c0, c1, r),
    ensures
        translated(
            by_functions::<C, V, S, W, T, E, F, G>(var_fn, stor_fn),
            var_slots::<V, S>(vs),
            c0,
            c1,
            var_outcome::<W, T, E>(r),
        ),
{
    let one = by_function::<C, V, W, E, F>(var_fn);
    let two = by_functions::<C, V, S, W, T, E, F, G>(var_fn, stor_fn);
    let xs = var_slots::<V, S>(vs);
    match r {
        Ok(ws) => {
            let cs = choose|cs: Seq<C>| #[trigger]
                steps(one, vs, cs, ws) && cs[0] == c0 && cs.last() == c1;
            let ys = var_slots::<W, T>(ws);
            assert(steps(two, xs, cs, ys)) by {
                assert forall|i: int| 0 <= i < ys.len() implies two(
                    cs[i],
                    xs[i],
                    cs[i + 1],
                    Ok(#[trigger] ys[i]),
                ) by {
                    assert(one(cs[i], vs[i], cs[i + 1], Ok(ws[i])));
                }
            }
        },
        Err(e) => {
            let (cs, ws) = choose|cs: Seq<C>, ws: Seq<W>| #[trigger]
                steps(one, vs, cs, ws) && ws.len() < vs.len() && cs[0] == c0 && one(
                    cs.last(),
                    vs[ws.len() as int],
                    c1,
                    Err(e),
                );
            let ys = var_slots::<W, T>(ws);
            assert(steps(two, xs, cs, ys)) by {
                assert forall|i: int| 0 <= i < ys.len() implies two(
                    cs[i],
                    xs[i],
                    cs[i + 1],
                    Ok(#[trigger] ys[i]),
                ) by {
                    assert(one(cs[i], vs[i], cs[i + 1], Ok(ws[i])));
                }
            }
            assert(xs[ys.len() as int] == Slot::<V, S>::Var(vs[ws.len() as int]));
        },
    }
}

/// Translating one variable is translating its place.
proof fn lemma_var_place<
    C,
    V,
    S,
    W,
    T,
    E,
    F: Fn(C, V) -> (C, Result<W, E>),
    G: Fn(C, S) -> (C, Result<T, E>),
>(var_fn: F, stor_fn: G, v: V, c0: C, c1: C, r: Result<W, E>)
    requires
        call_ensures(var_fn, (c0, v), (c1, r)),
    ensures
        translated(
            by_functions::<C, V, S, W, T, E, F, G>(var_fn, stor_fn),
            var_slot::<V, S>(v),
            c0,
            c1,
            var_outcome::<W, T, E>(single(r)),
        ),
{
    let two = by_functions::<C, V, S, W, T, E, F, G>(var_fn, stor_fn);
    let x = Slot::<V, S>::Var(v);
    match r {
        Ok(w) => {
            lemma_translated_one(two, x, c0, c1, Ok::<Slot<W, T>, E>(Slot::Var(w)));
            assert(var_slots::<W, T>(seq![w]) =~= seq![Slot::<W, T>::Var(w)]);
        },
        Err(e) => {
            lemma_translated_one(two, x, c0, c1, Err::<Slot<W, T>, E>(e));
        },
    }
}

/// Translating one storage space is translating its place.
proof fn lemma_stor_place<
    C,
    V,
    S,
    W,
    T,
    E,
    F: Fn(C, V) -> (C, Result<W, E>),
    G: Fn(C, S) -> (C, Result<T, E>),
>(var_fn: F, stor_fn: G, s: S, c0: C, c1: C, r: Result<T, E>)
    requires
        call_ensures(stor_fn, (c0, s), (c1, r)),
    ensures
        translated(
            by_functions::<C, V, S, W, T, E, F, G>(var_fn, stor_fn),
            stor_slot::<V, S>(s),
            c0,
            c1,
            stor_outcome::<W, T, E>(r),
        ),
{
    let two = by_functions::<C, V, S, W, T, E, F, G>(var_fn, stor_fn);
    let x = Slot::<V, S>::Stor(s);
    match r {
        Ok(t) => {
            lemma_translated_one(two, x, c0, c1, Ok::<Slot<W, T>, E>(Slot::Stor(t)));
        },
        Err(e) => {
            lemma_translated_one(two, x, c0, c1, Err::<Slot<W, T>, E>(e));
        },
    }
}

impl<Var, Stor> BIrStmt<Var, Stor> {
    /// The same statement with every variable and storage space translated, in
    /// order and up to the first failure.
    pub fn map<
        Ctx,
        NV,
        NS,
        E,
        F: Fn(Ctx, Var) -> (Ctx, Result<NV, E>),
        G: Fn(Ctx, Stor) -> (Ctx, Result<NS, E>),
    >(self, ctx: Ctx, var_fn: &F, stor_fn: &G) -> (r: (Ctx, Result<BIrStmt<NV, NS>, E>))
        requires
            total(*var_fn),
            total(*stor_fn),
        ensures
            translated(
                by_functions(*var_fn, *stor_fn),
                stmt_slots(self@),
                ctx,
                r.0,
                stmt_outcome(r.1),
            ),
            r.1 matches Ok(s) ==> same_stmt(self@, s@),
    {
        let ghost rel = by_functions::<Ctx, Var, Stor, NV, NS, E, F, G>(*var_fn, *stor_fn);
        let ghost all = stmt_slots(self@);
        match self {
            BIrStmt::Zero => {
                proof {
                    lemma_translated_none::<Ctx, Slot<Var, Stor>, Slot<NV, NS>, E>(rel, all, ctx);
                }
                (ctx, Ok(BIrStmt::Zero))
            },
            BIrStmt::One => {
                proof {
                    lemma_translated_none::<Ctx, Slot<Var, Stor>, Slot<NV, NS>, E>(rel, all, ctx);
                }
                (ctx, Ok(BIrStmt::One))
            },
            BIrStmt::And(a0, a1) => {
                let ghost p1 = var_slot::<Var, Stor>(a0);
                let ghost p2 = var_slot::<Var, Stor>(a1);
                let ghost v1 = a0;
                let ghost g0 = ctx;
                let (c1, got) = var_fn(ctx, a0);
                proof {
                    lemma_var_place::<Ctx, Var, Stor, NV, NS, E, F, G>(*var_fn, *stor_fn, v1, g0, c1, got);
                }
                let a0 = match got {
                    Ok(x) => x,
                    Err(e) => {
                        proof {
                            lemma_translated_cut::<Ctx, Slot<Var, Stor>, Slot<NV, NS>, E>(rel, p1, p2, ctx, c1, e);
                            assert((p1) + (p2) =~= all);
                        }
                        return (c1, Err(e));
                    },
                };
                let ghost w1 = var_slot::<NV, NS>(a0);
                assert(var_slots::<NV, NS>(seq![a0]) =~= var_slot::<NV, NS>(a0));
                let ghost v2 = a1;
                let ghost g1 = c1;
                let (c2, got) = var_fn(c1, a1);
                proof {
                    lemma_var_place::<Ctx, Var, Stor, NV, NS, E, F, G>(*var_fn, *stor_fn, v2, g1, c2, got);
                    lemma_translated_both(rel, p1, p2, ctx, g1, c2, w1, var_outcome::<NV, NS, E>(single(got)));
                }
                let a1 = match got {
                    Ok(x) => x,
                    Err(e) => {
                        return (c2, Err(e));
                    },
                };
                let ghost w2 = w1 + var_slot::<NV, NS>(a1);
                assert(var_slots::<NV, NS>(seq![a1]) =~= var_slot::<NV, NS>(a1));
                (c2, Ok(BIrStmt::And(a0, a1)))
            },
            BIrStmt::Or(a0, a1) => {
                let ghost p1 = var_slot::<Var, Stor>(a0);
                let ghost p2 = var_slot::<Var, Stor>(a1);
                let ghost v1 = a0;
                let ghost g0 = ctx;
                let (c1, got) = var_fn(ctx, a0);
                proof {
                    lemma_var_place::<Ctx, Var, Stor, NV, NS, E, F, G>(*var_fn, *stor_fn, v1, g0, c1, got);
                }
                let a0 = match got {
                    Ok(x) => x,
                    Err(e) => {
                        proof {
                            lemma_translated_cut::<Ctx, Slot<Var, Stor>, Slot<NV, NS>, E>(rel, p1, p2, ctx, c1, e);
                            assert((p1) + (p2) =~= all);
                        }
                        return (c1, Err(e));
                    },
                };
                let ghost w1 = var_slot::<NV, NS>(a0);
                assert(var_slots::<NV, NS>(seq![a0]) =~= var_slot::<NV, NS>(a0));
                let ghost v2 = a1;
                let ghost g1 = c1;
                let (c2, got) = var_fn(c1, a1);
                proof {
                    lemma_var_place::<Ctx, Var, Stor, NV, NS, E, F, G>(*var_fn, *stor_fn, v2, g1, c2, got);
                    lemma_translated_both(rel, p1, p2, ctx, g1, c2, w1, var_outcome::<NV, NS, E>(single(got)));
                }
                let a1 = match got {
                    Ok(x) => x,
                    Err(e) => {
                        return (c2, Err(e));
                    },
                };
                let ghost w2 = w1 + var_slot::<NV, NS>(a1);
                assert(var_slots::<NV, NS>(seq![a1]) =~= var_slot::<NV, NS>(a1));
                (c2, Ok(BIrStmt::Or(a0, a1)))
            },
            BIrStmt::Xor(a0, a1) => {
                let ghost p1 = var_slot::<Var, Stor>(a0);
                let ghost p2 = var_slot::<Var, Stor>(a1);
                let ghost v1 = a0;
                let ghost g0 = ctx;
                let (c1, got) = var_fn(ctx, a0);
                proof {
                    lemma_var_place::<Ctx, Var, Stor, NV, NS, E, F, G>(*var_fn, *stor_fn, v1, g0, c1, got);
                }
                let a0 = match got {
                    Ok(x) => x,
                    Err(e) => {
                        proof {
                            lemma_translated_cut::<Ctx, Slot<Var, Stor>, Slot<NV, NS>, E>(rel, p1, p2, ctx, c1, e);
                            assert((p1) + (p2) =~= all);
                        }
                        return (c1, Err(e));
                    },
                };
                let ghost w1 = var_slot::<NV, NS>(a0);
                assert(var_slots::<NV, NS>(seq![a0]) =~= var_slot::<NV, NS>(a0));
                let ghost v2 = a1;
                let ghost g1 = c1;
                let (c2, got) = var_fn(c1, a1);
                proof {
                    lemma_var_place::<Ctx, Var, Stor, NV, NS, E, F, G>(*var_fn, *stor_fn, v2, g1, c2, got);
                    lemma_translated_both(rel, p1, p2, ctx, g1, c2, w1, var_outcome::<NV, NS, E>(single(got)));
                }
                let a1 = match got {
                    Ok(x) => x,
                    Err(e) => {
                        return (c2, Err(e));
                    },
                };
                let ghost w2 = w1 + var_slot::<NV, NS>(a1);
                assert(var_slots::<NV, NS>(seq![a1]) =~= var_slot::<NV, NS>(a1));
                (c2, Ok(BIrStmt::Xor(a0, a1)))
            },
            BIrStmt::Not(a0) => {
                let ghost p1 = var_slot::<Var, Stor>(a0);
                let ghost v1 = a0;
                let ghost g0 = ctx;
                let (c1, got) = var_fn(ctx, a0);
                proof {
                    lemma_var_place::<Ctx, Var, Stor, NV, NS, E, F, G>(*var_fn, *stor_fn, v1, g0, c1, got);
                }
                let a0 = match got {
                    Ok(x) => x,
                    Err(e) => {
                        return (c1, Err(e));
                    },
                };
                let ghost w1 = var_slot::<NV, NS>(a0);
                assert(var_slots::<NV, NS>(seq![a0]) =~= var_slot::<NV, NS>(a0));
                (c1, Ok(BIrStmt::Not(a0)))
            },
            BIrStmt::OracleCall { name, args, num_bits } => {
                let ghost p1 = var_slots::<Var, Stor>(args@);
                let ghost v1 = args@;
                let ghost g0 = ctx;
                let (c1, got) = map_list(args, ctx, var_fn);
                proof {
                    lemma_var_places::<Ctx, Var, Stor, NV, NS, E, F, G>(*var_fn, *stor_fn, v1, g0, c1, listed(got));
                }
                let args = match got {
                    Ok(x) => x,
                    Err(e) => {
                        return (c1, Err(e));
                    },
                };
                let ghost w1 = var_slots::<NV, NS>(args@);
                (c1, Ok(BIrStmt::OracleCall { name, args, num_bits }))
            },
            BIrStmt::OracleBit { name, args, bit, occurrence } => {
                let ghost p1 = var_slots::<Var, Stor>(args@);
                let ghost v1 = args@;
                let ghost g0 = ctx;
                let (c1, got) = map_list(args, ctx, var_fn);
                proof {
                    lemma_var_places::<Ctx, Var, Stor, NV, NS, E, F, G>(*var_fn, *stor_fn, v1, g0, c1, listed(got));
                }
                let args = match got {
                    Ok(x) => x,
                    Err(e) => {
                        return (c1, Err(e));
                    },
                };
                let ghost w1 = var_slots::<NV, NS>(args@);
                (c1, Ok(BIrStmt::OracleBit { name, args, bit, occurrence }))
            },
            BIrStmt::OracleProjectedBit { call, bit } => {
                let ghost p1 = var_slot::<Var, Stor>(call);
                let ghost v1 = call;
                let ghost g0 = ctx;
                let (c1, got) = var_fn(ctx, call);
                proof {
                    lemma_var_place::<Ctx, Var, Stor, NV, NS, E, F, G>(*var_fn, *stor_fn, v1, g0, c1, got);
                }
                let call = match got {
                    Ok(x) => x,
                    Err(e) => {
                        return (c1, Err(e));
                    },
                };
                let ghost w1 = var_slot::<NV, NS>(call);
                assert(var_slots::<NV, NS>(seq![call]) =~= var_slot::<NV, NS>(call));
                (c1, Ok(BIrStmt::OracleProjectedBit { call, bit }))
            },
            BIrStmt::ActionCall { name, guard, args, fallback, num_bits } => {
                let ghost p1 = var_slot::<Var, Stor>(guard);
                let ghost p2 = var_slots::<Var, Stor>(args@);
                let ghost p3 = var_slots::<Var, Stor>(fallback@);
                let ghost v1 = guard;
                let ghost g0 = ctx;
                let (c1, got) = var_fn(ctx, guard);
                proof {
                    lemma_var_place::<Ctx, Var, Stor, NV, NS, E, F, G>(*var_fn, *stor_fn, v1, g0, c1, got);
                }
                let guard = match got {
                    Ok(x) => x,
                    Err(e) => {
                        proof {
                            lemma_translated_cut::<Ctx, Slot<Var, Stor>, Slot<NV, NS>, E>(rel, p1, p2 + p3, ctx, c1, e);
                            assert((p1) + (p2 + p3) =~= all);
                        }
                        return (c1, Err(e));
                    },
                };
                let ghost w1 = var_slot::<NV, NS>(guard);
                assert(var_slots::<NV, NS>(seq![guard]) =~= var_slot::<NV, NS>(guard));
                let ghost v2 = args@;
                let ghost g1 = c1;
                let (c2, got) = map_list(args, c1, var_fn);
                proof {
                    lemma_var_places::<Ctx, Var, Stor, NV, NS, E, F, G>(*var_fn, *stor_fn, v2, g1, c2, listed(got));
                    lemma_translated_both(rel, p1, p2, ctx, g1, c2, w1, var_outcome::<NV, NS, E>(listed(got)));
                }
                let args = match got {
                    Ok(x) => x,
                    Err(e) => {
                        proof {
                            lemma_translated_cut::<Ctx, Slot<Var, Stor>, Slot<NV, NS>, E>(rel, p1 + p2, p3, ctx, c2, e);
                            assert((p1 + p2) + (p3) =~= all);
                        }
                        return (c2, Err(e));
                    },
                };
                let ghost w2 = w1 + var_slots::<NV, NS>(args@);
                let ghost v3 = fallback@;
                let ghost g2 = c2;
                let (c3, got) = map_list(fallback, c2, var_fn);
                proof {
                    lemma_var_places::<Ctx, Var, Stor, NV, NS, E, F, G>(*var_fn, *stor_fn, v3, g2, c3, listed(got));
                    lemma_translated_both(rel, p1 + p2, p3, ctx, g2, c3, w2, var_outcome::<NV, NS, E>(listed(got)));
                }
                let fallback = match got {
                    Ok(x) => x,
                    Err(e) => {
                        return (c3, Err(e));
                    },
                };
                let ghost w3 = w2 + var_slots::<NV, NS>(fallback@);
                (c3, Ok(BIrStmt::ActionCall { name, guard, args, fallback, num_bits }))
            },
            BIrStmt::ActionBit { call, bit } => {
                let ghost p1 = var_slot::<Var, Stor>(call);
                let ghost v1 = call;
                let ghost g0 = ctx;
                let (c1, got) = var_fn(ctx, call);
                proof {
                    lemma_var_place::<Ctx, Var, Stor, NV, NS, E, F, G>(*var_fn, *stor_fn, v1, g0, c1, got);
                }
                let call = match got {
                    Ok(x) => x,
                    Err(e) => {
                        return (c1, Err(e));
                    },
                };
                let ghost w1 = var_slot::<NV, NS>(call);
                assert(var_slots::<NV, NS>(seq![call]) =~= var_slot::<NV, NS>(call));
                (c1, Ok(BIrStmt::ActionBit { call, bit }))
            },
            BIrStmt::ActionStoreBit { name, guard, args, fallback, storage, lane, addr, bit, occurrence } => {
                let ghost p1 = var_slot::<Var, Stor>(guard);
                let ghost p2 = var_slots::<Var, Stor>(args@);
                let ghost p3 = var_slot::<Var, Stor>(fallback);
                let ghost p4 = stor_slot::<Var, Stor>(storage);
                let ghost p5 = var_slots::<Var, Stor>(addr@);
                let ghost v1 = guard;
                let ghost g0 = ctx;
                let (c1, got) = var_fn(ctx, guard);
                proof {
                    lemma_var_place::<Ctx, Var, Stor, NV, NS, E, F, G>(*var_fn, *stor_fn, v1, g0, c1, got);
                }
                let guard = match got {
                    Ok(x) => x,
                    Err(e) => {
                        proof {
                            lemma_translated_cut::<Ctx, Slot<Var, Stor>, Slot<NV, NS>, E>(rel, p1, p2 + p3 + p4 + p5, ctx, c1, e);
                            assert((p1) + (p2 + p3 + p4 + p5) =~= all);
                        }
                        return (c1, Err(e));
                    },
                };
                let ghost w1 = var_slot::<NV, NS>(guard);
                assert(var_slots::<NV, NS>(seq![guard]) =~= var_slot::<NV, NS>(guard));
                let ghost v2 = args@;
                let ghost g1 = c1;
                let (c2, got) = map_list(args, c1, var_fn);
                proof {
                    lemma_var_places::<Ctx, Var, Stor, NV, NS, E, F, G>(*var_fn, *stor_fn, v2, g1, c2, listed(got));
                    lemma_translated_both(rel, p1, p2, ctx, g1, c2, w1, var_outcome::<NV, NS, E>(listed(got)));
                }
                let args = match got {
                    Ok(x) => x,
                    Err(e) => {
                        proof {
                            lemma_translated_cut::<Ctx, Slot<Var, Stor>, Slot<NV, NS>, E>(rel, p1 + p2, p3 + p4 + p5, ctx, c2, e);
                            assert((p1 + p2) + (p3 + p4 + p5) =~= all);
                        }
                        return (c2, Err(e));
                    },
                };
                let ghost w2 = w1 + var_slots::<NV, NS>(args@);
                let ghost v3 = fallback;
                let ghost g2 = c2;
                let (c3, got) = var_fn(c2, fallback);
                proof {
                    lemma_var_place::<Ctx, Var, Stor, NV, NS, E, F, G>(*var_fn, *stor_fn, v3, g2, c3, got);
                    lemma_translated_both(rel, p1 + p2, p3, ctx, g2, c3, w2, var_outcome::<NV, NS, E>(single(got)));
                }
                let fallback = match got {
                    Ok(x) => x,
                    Err(e) => {
                        proof {
                            lemma_translated_cut::<Ctx, Slot<Var, Stor>, Slot<NV, NS>, E>(rel, p1 + p2 + p3, p4 + p5, ctx, c3, e);
                            assert((p1 + p2 + p3) + (p4 + p5) =~= all);
                        }
                        return (c3, Err(e));
                    },
                };
                let ghost w3 = w2 + var_slot::<NV, NS>(fallback);
                assert(var_slots::<NV, NS>(seq![fallback]) =~= var_slot::<NV, NS>(fallback));
                let ghost v4 = storage;
                let ghost g3 = c3;
                let (c4, got) = stor_fn(c3, storage);
                proof {
                    lemma_stor_place::<Ctx, Var, Stor, NV, NS, E, F, G>(*var_fn, *stor_fn, v4, g3, c4, got);
                    lemma_translated_both(rel, p1 + p2 + p3, p4, ctx, g3, c4, w3, stor_outcome::<NV, NS, E>(got));
                }
                let storage = match got {
                    Ok(x) => x,
                    Err(e) => {
                        proof {
                            lemma_translated_cut::<Ctx, Slot<Var, Stor>, Slot<NV, NS>, E>(rel, p1 + p2 + p3 + p4, p5, ctx, c4, e);
                            assert((p1 + p2 + p3 + p4) + (p5) =~= all);
                        }
                        return (c4, Err(e));
                    },
                };
                let ghost w4 = w3 + stor_slot::<NV, NS>(storage);
                let ghost v5 = addr@;
                let ghost g4 = c4;
                let (c5, got) = map_list(addr, c4, var_fn);
                proof {
                    lemma_var_places::<Ctx, Var, Stor, NV, NS, E, F, G>(*var_fn, *stor_fn, v5, g4, c5, listed(got));
                    lemma_translated_both(rel, p1 + p2 + p3 + p4, p5, ctx, g4, c5, w4, var_outcome::<NV, NS, E>(listed(got)));
                }
                let addr = match got {
                    Ok(x) => x,
                    Err(e) => {
                        return (c5, Err(e));
                    },
                };
                let ghost w5 = w4 + var_slots::<NV, NS>(addr@);
                (c5, Ok(BIrStmt::ActionStoreBit { name, guard, args, fallback, storage, lane, addr, bit, occurrence }))
            },
            BIrStmt::Rng { name } => {
                proof {
                    lemma_translated_none::<Ctx, Slot<Var, Stor>, Slot<NV, NS>, E>(rel, all, ctx);
                }
                (ctx, Ok(BIrStmt::Rng { name }))
            },
            BIrStmt::RngBit { name, bit, occurrence } => {
                proof {
                    lemma_translated_none::<Ctx, Slot<Var, Stor>, Slot<NV, NS>, E>(rel, all, ctx);
                }
                (ctx, Ok(BIrStmt::RngBit { name, bit, occurrence }))
            },
            BIrStmt::StorageRead { storage, lane, addr } => {
                let ghost p1 = stor_slot::<Var, Stor>(storage);
                let ghost p2 = var_slots::<Var, Stor>(addr@);
                let ghost v1 = storage;
                let ghost g0 = ctx;
                let (c1, got) = stor_fn(ctx, storage);
                proof {
                    lemma_stor_place::<Ctx, Var, Stor, NV, NS, E, F, G>(*var_fn, *stor_fn, v1, g0, c1, got);
                }
                let storage = match got {
                    Ok(x) => x,
                    Err(e) => {
                        proof {
                            lemma_translated_cut::<Ctx, Slot<Var, Stor>, Slot<NV, NS>, E>(rel, p1, p2, ctx, c1, e);
                            assert((p1) + (p2) =~= all);
                        }
                        return (c1, Err(e));
                    },
                };
                let ghost w1 = stor_slot::<NV, NS>(storage);
                let ghost v2 = addr@;
                let ghost g1 = c1;
                let (c2, got) = map_list(addr, c1, var_fn);
                proof {
                    lemma_var_places::<Ctx, Var, Stor, NV, NS, E, F, G>(*var_fn, *stor_fn, v2, g1, c2, listed(got));
                    lemma_translated_both(rel, p1, p2, ctx, g1, c2, w1, var_outcome::<NV, NS, E>(listed(got)));
                }
                let addr = match got {
                    Ok(x) => x,
                    Err(e) => {
                        return (c2, Err(e));
                    },
                };
                let ghost w2 = w1 + var_slots::<NV, NS>(addr@);
                (c2, Ok(BIrStmt::StorageRead { storage, lane, addr }))
            },
            BIrStmt::StorageWrite { storage, lane, src, addr } => {
                let ghost p1 = stor_slot::<Var, Stor>(storage);
                let ghost p2 = var_slot::<Var, Stor>(src);
                let ghost p3 = var_slots::<Var, Stor>(addr@);
                let ghost v1 = storage;
                let ghost g0 = ctx;
                let (c1, got) = stor_fn(ctx, storage);
                proof {
                    lemma_stor_place::<Ctx, Var, Stor, NV, NS, E, F, G>(*var_fn, *stor_fn, v1, g0, c1, got);
                }
                let storage = match got {
                    Ok(x) => x,
                    Err(e) => {
                        proof {
                            lemma_translated_cut::<Ctx, Slot<Var, Stor>, Slot<NV, NS>, E>(rel, p1, p2 + p3, ctx, c1, e);
                            assert((p1) + (p2 + p3) =~= all);
                        }
                        return (c1, Err(e));
                    },
                };
                let ghost w1 = stor_slot::<NV, NS>(storage);
                let ghost v2 = src;
                let ghost g1 = c1;
                let (c2, got) = var_fn(c1, src);
                proof {
                    lemma_var_place::<Ctx, Var, Stor, NV, NS, E, F, G>(*var_fn, *stor_fn, v2, g1, c2, got);
                    lemma_translated_both(rel, p1, p2, ctx, g1, c2, w1, var_outcome::<NV, NS, E>(single(got)));
                }
                let src = match got {
                    Ok(x) => x,
                    Err(e) => {
                        proof {
                            lemma_translated_cut::<Ctx, Slot<Var, Stor>, Slot<NV, NS>, E>(rel, p1 + p2, p3, ctx, c2, e);
                            assert((p1 + p2) + (p3) =~= all);
                        }
                        return (c2, Err(e));
                    },
                };
                let ghost w2 = w1 + var_slot::<NV, NS>(src);
                assert(var_slots::<NV, NS>(seq![src]) =~= var_slot::<NV, NS>(src));
                let ghost v3 = addr@;
                let ghost g2 = c2;
                let (c3, got) = map_list(addr, c2, var_fn);
                proof {
                    lemma_var_places::<Ctx, Var, Stor, NV, NS, E, F, G>(*var_fn, *stor_fn, v3, g2, c3, listed(got));
                    lemma_translated_both(rel, p1 + p2, p3, ctx, g2, c3, w2, var_outcome::<NV, NS, E>(listed(got)));
                }
                let addr = match got {
                    Ok(x) => x,
                    Err(e) => {
                        return (c3, Err(e));
                    },
                };
                let ghost w3 = w2 + var_slots::<NV, NS>(addr@);
                (c3, Ok(BIrStmt::StorageWrite { storage, lane, src, addr }))
            },
        }
    }

    /// The same statement with references to its variables and storage spaces.
    pub fn as_ref(&self) -> (r: BIrStmt<&Var, &Stor>)
        ensures
            same_stmt(self@, r@),
            stmt_slots(r@).len() == stmt_slots(self@).len(),
            forall|i: int|
                0 <= i < stmt_slots(self@).len() ==> match #[trigger] stmt_slots(r@)[i] {
                    Slot::Var(x) => stmt_slots(self@)[i] matches Slot::Var(y) && *x == y,
                    Slot::Stor(x) => stmt_slots(self@)[i] matches Slot::Stor(y) && *x == y,
                },
    {
        match self {
            BIrStmt::Zero => BIrStmt::Zero,
            BIrStmt::One => BIrStmt::One,
            BIrStmt::And(a0, a1) => BIrStmt::And(a0, a1),
            BIrStmt::Or(a0, a1) => BIrStmt::Or(a0, a1),
            BIrStmt::Xor(a0, a1) => BIrStmt::Xor(a0, a1),
            BIrStmt::Not(a0) => BIrStmt::Not(a0),
            BIrStmt::OracleCall { name, args, num_bits } => BIrStmt::OracleCall {
                name: name.clone(),
                args: each_ref(args),
                num_bits: *num_bits,
            },
            BIrStmt::OracleBit { name, args, bit, occurrence } => BIrStmt::OracleBit {
                name: name.clone(),
                args: each_ref(args),
                bit: *bit,
                occurrence: *occurrence,
            },
            BIrStmt::OracleProjectedBit { call, bit } => BIrStmt::OracleProjectedBit {
                call,
                bit: *bit,
            },
            BIrStmt::ActionCall { name, guard, args, fallback, num_bits } => BIrStmt::ActionCall {
                name: name.clone(),
                guard,
                args: each_ref(args),
                fallback: each_ref(fallback),
                num_bits: *num_bits,
            },
            BIrStmt::ActionBit { call, bit } => BIrStmt::ActionBit {
                call,
                bit: *bit,
            },
            BIrStmt::ActionStoreBit { name, guard, args, fallback, storage, lane, addr, bit, occurrence } => BIrStmt::ActionStoreBit {
                name: name.clone(),
                guard,
                args: each_ref(args),
                fallback,
                storage,
                lane: *lane,
                addr: each_ref(addr),
                bit: *bit,
                occurrence: *occurrence,
            },
            BIrStmt::Rng { name } => BIrStmt::Rng {
                name: name.clone(),
            },
            BIrStmt::RngBit { name, bit, occurrence } => BIrStmt::RngBit {
                name: name.clone(),
                bit: *bit,
                occurrence: *occurrence,
            },
            BIrStmt::StorageRead { storage, lane, addr } => BIrStmt::StorageRead {
                storage,
                lane: *lane,
                addr: each_ref(addr),
            },
            BIrStmt::StorageWrite { storage, lane, src, addr } => BIrStmt::StorageWrite {
                storage,
                lane: *lane,
                src,
                addr: each_ref(addr),
            },
        }
    }

    /// The same statement with mutable references to its variables and storage
    /// spaces.
    pub fn as_mut(&mut self) -> (r: BIrStmt<&mut Var, &mut Stor>)
        ensures
            same_stmt(old(self)@, r@),
            same_stmt(old(self)@, final(self)@),
            stmt_slots(r@).len() == stmt_slots(old(self)@).len(),
            stmt_slots(r@).len() == stmt_slots(final(self)@).len(),
            forall|i: int|
                0 <= i < stmt_slots(r@).len() ==> match #[trigger] stmt_slots(r@)[i] {
                    Slot::Var(x) => (stmt_slots(old(self)@)[i] matches Slot::Var(y) && *x == y)
                        && (stmt_slots(final(self)@)[i] matches Slot::Var(z) && *final(x) == z),
                    Slot::Stor(x) => (stmt_slots(old(self)@)[i] matches Slot::Stor(y) && *x == y)
                        && (stmt_slots(final(self)@)[i] matches Slot::Stor(z) && *final(x) == z),
                },
    {
        match self {
            BIrStmt::Zero => BIrStmt::Zero,
            BIrStmt::One => BIrStmt::One,
            BIrStmt::And(a0, a1) => BIrStmt::And(a0, a1),
            BIrStmt::Or(a0, a1) => BIrStmt::Or(a0, a1),
            BIrStmt::Xor(a0, a1) => BIrStmt::Xor(a0, a1),
            BIrStmt::Not(a0) => BIrStmt::Not(a0),
            BIrStmt::OracleCall { name, args, num_bits } => BIrStmt::OracleCall {
                name: name.clone(),
                args: each_mut(args),
                num_bits: *num_bits,
            },
            BIrStmt::OracleBit { name, args, bit, occurrence } => BIrStmt::OracleBit {
                name: name.clone(),
                args: each_mut(args),
                bit: *bit,
                occurrence: *occurrence,
            },
            BIrStmt::OracleProjectedBit { call, bit } => BIrStmt::OracleProjectedBit {
                call,
                bit: *bit,
            },
            BIrStmt::ActionCall { name, guard, args, fallback, num_bits } => BIrStmt::ActionCall {
                name: name.clone(),
                guard,
                args: each_mut(args),
                fallback: each_mut(fallback),
                num_bits: *num_bits,
            },
            BIrStmt::ActionBit { call, bit } => BIrStmt::ActionBit {
                call,
                bit: *bit,
            },
            BIrStmt::ActionStoreBit { name, guard, args, fallback, storage, lane, addr, bit, occurrence } => BIrStmt::ActionStoreBit {
                name: name.clone(),
                guard,
                args: each_mut(args),
                fallback,
                storage,
                lane: *lane,
                addr: each_mut(addr),
                bit: *bit,
                occurrence: *occurrence,
            },
            BIrStmt::Rng { name } => BIrStmt::Rng {
                name: name.clone(),
            },
            BIrStmt::RngBit { name, bit, occurrence } => BIrStmt::RngBit {
                name: name.clone(),
                bit: *bit,
                occurrence: *occurrence,
            },
            BIrStmt::StorageRead { storage, lane, addr } => BIrStmt::StorageRead {
                storage,
                lane: *lane,
                addr: each_mut(addr),
            },
            BIrStmt::StorageWrite { storage, lane, src, addr } => BIrStmt::StorageWrite {
                storage,
                lane: *lane,
                src,
                addr: each_mut(addr),
            },
        }
    }
}

} // verus!
