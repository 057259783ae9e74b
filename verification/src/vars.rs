//! Programs with other variables in place of theirs.
//!
//! The destinations, jumps, block ends and boolean statements are generic in
//! their variables. Here they are taken apart into their variables, in order,
//! and put together again with others.

use vstd::prelude::*;

use crate::boolar::{BIrTarget, BIrTargetView, BIrTermView, BIrTerminator};
use crate::common::Constant;
use crate::ir::{
    case_views, clone_hint, BranchView, IRBlockTargetId, IRBranchTarget, IRTerminator, TermView,
};

verus! {

// ---------------------------------------------------------------------------
// Translations
// ---------------------------------------------------------------------------

/// Whether the first elements of `vs` may be translated to `ws`, one after the
/// other, while the context goes through `cs`. What a translation may do is
/// given by `rel`: context before, element, context behind, outcome.
pub open spec fn steps<C, V, W, E>(
    rel: spec_fn(C, V, C, Result<W, E>) -> bool,
    vs: Seq<V>,
    cs: Seq<C>,
    ws: Seq<W>,
) -> bool {
    &&& cs.len() == ws.len() + 1
    &&& ws.len() <= vs.len()
    &&& forall|i: int| 0 <= i < ws.len() ==> rel(cs[i], vs[i], cs[i + 1], Ok(#[trigger] ws[i]))
}

/// Whether translating all of `vs`, one after the other and up to the first
/// failure, may take the context from `c0` to `c1` with the outcome `r`.
pub open spec fn translated<C, V, W, E>(
    rel: spec_fn(C, V, C, Result<W, E>) -> bool,
    vs: Seq<V>,
    c0: C,
    c1: C,
    r: Result<Seq<W>, E>,
) -> bool {
    match r {
        Ok(ws) => ws.len() == vs.len() && exists|cs: Seq<C>| #[trigger]
            steps(rel, vs, cs, ws) && cs[0] == c0 && cs.last() == c1,
        Err(e) => exists|cs: Seq<C>, ws: Seq<W>| #[trigger]
            steps(rel, vs, cs, ws) && ws.len() < vs.len() && cs[0] == c0 && rel(
                cs.last(),
                vs[ws.len() as int],
                c1,
                Err(e),
            ),
    }
}

/// One outcome as that of a list.
pub open spec fn single<W, E>(r: Result<W, E>) -> Result<Seq<W>, E> {
    match r {
        Ok(w) => Ok(seq![w]),
        Err(e) => Err(e),
    }
}

/// The outcome for two lists, where the first one succeeded.
pub open spec fn behind<W, E>(x: Seq<W>, r: Result<Seq<W>, E>) -> Result<Seq<W>, E> {
    match r {
        Ok(y) => Ok(x + y),
        Err(e) => Err(e),
    }
}

/// What the outcome of a list denotes.
pub open spec fn listed<W, E>(r: Result<Vec<W>, E>) -> Result<Seq<W>, E> {
    match r {
        Ok(ws) => Ok(ws@),
        Err(e) => Err(e),
    }
}

/// Nothing is translated in no step.
pub proof fn lemma_translated_none<C, V, W, E>(
    rel: spec_fn(C, V, C, Result<W, E>) -> bool,
    vs: Seq<V>,
    c: C,
)
    requires
        vs.len() == 0,
    ensures
        translated(rel, vs, c, c, Ok(Seq::<W>::empty())),
{
    let cs = seq![c];
    let ws = Seq::<W>::empty();
    assert(steps(rel, vs, cs, ws));
    assert(cs[0] == c && cs.last() == c);
}

/// One element is translated in one step.
pub proof fn lemma_translated_one<C, V, W, E>(
    rel: spec_fn(C, V, C, Result<W, E>) -> bool,
    v: V,
    c0: C,
    c1: C,
    r: Result<W, E>,
)
    requires
        rel(c0, v, c1, r),
    ensures
        translated(rel, seq![v], c0, c1, single(r)),
{
    match r {
        Ok(w) => {
            let cs = seq![c0, c1];
            let ws = seq![w];
            assert(steps(rel, seq![v], cs, ws));
            assert(cs[0] == c0 && cs.last() == c1);
            assert(single(r) == Ok::<Seq<W>, E>(ws));
        },
        Err(e) => {
            let cs = seq![c0];
            assert(steps(rel, seq![v], cs, Seq::<W>::empty()));
            assert(cs[0] == c0 && cs.last() == c0);
        },
    }
}

/// What is translated in two parts is translated as a whole.
pub proof fn lemma_translated_both<C, V, W, E>(
    rel: spec_fn(C, V, C, Result<W, E>) -> bool,
    a: Seq<V>,
    b: Seq<V>,
    c0: C,
    c1: C,
    c2: C,
    x: Seq<W>,
    r: Result<Seq<W>, E>,
)
    requires
        translated(rel, a, c0, c1, Ok::<Seq<W>, E>(x)),
        translated(rel, b, c1, c2, r),
    ensures
        translated(rel, a + b, c0, c2, behind(x, r)),
{
    let cs = choose|cs: Seq<C>| #[trigger]
        steps(rel, a, cs, x) && cs[0] == c0 && cs.last() == c1;
    match r {
        Ok(y) => {
            let ds = choose|ds: Seq<C>| #[trigger]
                steps(rel, b, ds, y) && ds[0] == c1 && ds.last() == c2;
            lemma_steps_both(rel, a, b, cs, ds, x, y);
            let all = cs + ds.drop_first();
            assert(all[0] == c0);
            assert(all.last() == c2) by {
                if y.len() == 0 {
                    assert(ds.last() == ds[0]);
                    assert(all =~= cs);
                } else {
                    assert(all.last() == ds.drop_first().last());
                }
            }
        },
        Err(e) => {
            let (ds, y) = choose|ds: Seq<C>, y: Seq<W>| #[trigger]
                steps(rel, b, ds, y) && y.len() < b.len() && ds[0] == c1 && rel(
                    ds.last(),
                    b[y.len() as int],
                    c2,
                    Err(e),
                );
            lemma_steps_both(rel, a, b, cs, ds, x, y);
            let all = cs + ds.drop_first();
            assert(all[0] == c0);
            assert(all.last() == ds.last()) by {
                if y.len() == 0 {
                    assert(ds.last() == ds[0]);
                    assert(all =~= cs);
                } else {
                    assert(all.last() == ds.drop_first().last());
                }
            }
            assert((a + b)[(x + y).len() as int] == b[y.len() as int]);
        },
    }
}

proof fn lemma_steps_both<C, V, W, E>(
    rel: spec_fn(C, V, C, Result<W, E>) -> bool,
    a: Seq<V>,
    b: Seq<V>,
    cs: Seq<C>,
    ds: Seq<C>,
    x: Seq<W>,
    y: Seq<W>,
)
    requires
        steps(rel, a, cs, x),
        x.len() == a.len(),
        steps(rel, b, ds, y),
        cs.last() == ds[0],
    ensures
        steps(rel, a + b, cs + ds.drop_first(), x + y),
{
    let all = cs + ds.drop_first();
    let ws = x + y;
    assert forall|i: int| 0 <= i < ws.len() implies rel(
        all[i],
        (a + b)[i],
        all[i + 1],
        Ok(#[trigger] ws[i]),
    ) by {
        if i < x.len() {
            assert(ws[i] == x[i]);
            assert(all[i] == cs[i] && all[i + 1] == cs[i + 1]);
        } else {
            let k = i - x.len();
            assert(ws[i] == y[k]);
            assert((a + b)[i] == b[k]);
            assert(all[i] == ds[k]);
            assert(all[i + 1] == ds[k + 1]);
        }
    }
}

/// A failure in the first part is a failure of the whole.
pub proof fn lemma_translated_cut<C, V, W, E>(
    rel: spec_fn(C, V, C, Result<W, E>) -> bool,
    a: Seq<V>,
    b: Seq<V>,
    c0: C,
    c1: C,
    e: E,
)
    requires
        translated(rel, a, c0, c1, Err::<Seq<W>, E>(e)),
    ensures
        translated(rel, a + b, c0, c1, Err::<Seq<W>, E>(e)),
{
    let (cs, ws) = choose|cs: Seq<C>, ws: Seq<W>| #[trigger]
        steps(rel, a, cs, ws) && ws.len() < a.len() && cs[0] == c0 && rel(
            cs.last(),
            a[ws.len() as int],
            c1,
            Err(e),
        );
    assert(steps(rel, a + b, cs, ws)) by {
        assert forall|i: int| 0 <= i < ws.len() implies rel(
            cs[i],
            (a + b)[i],
            cs[i + 1],
            Ok(#[trigger] ws[i]),
        ) by {
            assert((a + b)[i] == a[i]);
        }
    }
    assert((a + b)[ws.len() as int] == a[ws.len() as int]);
}

/// What a function may do to a context and an element.
pub open spec fn by_function<C, V, W, E, F: Fn(C, V) -> (C, Result<W, E>)>(go: F) -> spec_fn(
    C,
    V,
    C,
    Result<W, E>,
) -> bool {
    |c0: C, v: V, c1: C, r: Result<W, E>| call_ensures(go, (c0, v), (c1, r))
}

/// Whether a function can be called with anything.
pub open spec fn total<C, V, W, F: Fn(C, V) -> (C, W)>(go: F) -> bool {
    forall|c: C, v: V| call_requires(go, (c, v))
}

/// Translate the elements of a list.
pub(crate) fn map_list<C, V, W, E, F: Fn(C, V) -> (C, Result<W, E>)>(
    list: Vec<V>,
    ctx: C,
    go: &F,
) -> (r: (C, Result<Vec<W>, E>))
    requires
        total(*go),
    ensures
        translated(by_function(*go), list@, ctx, r.0, listed(r.1)),
{
    let ghost vs = list@;
    let ghost start = ctx;
    let ghost rel = by_function::<C, V, W, E, F>(*go);
    let mut items = list;
    let mut rest: Vec<V> = Vec::new();
    while items.len() > 0
        invariant
            items@.len() + rest@.len() == vs.len(),
            items@ == vs.take(items@.len() as int),
            forall|i: int| 0 <= i < rest@.len() ==> rest@[i] == #[trigger] vs[vs.len() - 1 - i],
        decreases items@.len(),
    {
        match items.pop() {
            Some(v) => {
                rest.push(v);
            },
            None => {},
        }
        proof {
            let n = rest@.len() as int;
            assert forall|i: int| 0 <= i < n implies rest@[i] == #[trigger] vs[vs.len() - 1 - i] by {}
            assert(items@ =~= vs.take(items@.len() as int));
        }
    }
    let mut out: Vec<W> = Vec::new();
    let mut now: C = ctx;
    proof {
        lemma_translated_none::<C, V, W, E>(rel, vs.take(0), now);
        assert(out@ =~= Seq::empty());
    }
    while rest.len() > 0
        invariant
            total(*go),
            rel == by_function::<C, V, W, E, F>(*go),
            start == ctx,
            vs == list@,
            out@.len() + rest@.len() == vs.len(),
            forall|i: int| 0 <= i < rest@.len() ==> #[trigger] rest@[i] == vs[vs.len() - 1 - i],
            translated(rel, vs.take(out@.len() as int), start, now, Ok::<Seq<W>, E>(out@)),
        decreases rest@.len(),
    {
        let ghost n = out@.len() as int;
        let ghost c0 = now;
        let ghost before = out@;
        proof {
            assert(rest@[rest@.len() - 1] == vs[n]);
        }
        match rest.pop() {
            Some(v) => {
                let (c1, got) = go(now, v);
                proof {
                    lemma_translated_one(rel, vs[n], c0, c1, got);
                    lemma_translated_both(
                        rel,
                        vs.take(n),
                        seq![vs[n]],
                        start,
                        c0,
                        c1,
                        before,
                        single(got),
                    );
                    assert(vs.take(n) + seq![vs[n]] =~= vs.take(n + 1));
                }
                match got {
                    Ok(w) => {
                        out.push(w);
                        assert(out@ =~= before + seq![w]);
                    },
                    Err(e) => {
                        proof {
                            lemma_translated_cut::<C, V, W, E>(
                                rel,
                                vs.take(n + 1),
                                vs.skip(n + 1),
                                start,
                                c1,
                                e,
                            );
                            assert(vs.take(n + 1) + vs.skip(n + 1) =~= vs);
                        }
                        return (c1, Err(e));
                    },
                }
                now = c1;
            },
            None => {},
        }
    }
    assert(vs.take(out@.len() as int) =~= vs);
    (now, Ok(out))
}

/// References to the elements of a list.
pub(crate) fn each_ref<V>(list: &Vec<V>) -> (r: Vec<&V>)
    ensures
        r@.len() == list@.len(),
        forall|i: int| 0 <= i < list@.len() ==> *(#[trigger] r@[i]) == list@[i],
{
    let mut out: Vec<&V> = Vec::new();
    let mut i: usize = 0;
    while i < list.len()
        invariant
            i <= list@.len(),
            out@.len() == i,
            forall|j: int| 0 <= j < i ==> *(#[trigger] out@[j]) == list@[j],
        decreases list@.len() - i,
    {
        out.push(&list[i]);
        i += 1;
    }
    out
}

fn push_each_mut<'a, V>(s: &'a mut [V], out: &mut Vec<&'a mut V>)
    ensures
        final(out)@.len() == old(out)@.len() + old(s)@.len(),
        final(s)@.len() == old(s)@.len(),
        forall|i: int| 0 <= i < old(out)@.len() ==> #[trigger] final(out)@[i] == old(out)@[i],
        forall|i: int|
            old(out)@.len() <= i < final(out)@.len() ==> *(#[trigger] final(out)@[i]) == old(s)@[i
                - old(out)@.len()],
        forall|i: int|
            old(out)@.len() <= i < final(out)@.len() ==> *final(#[trigger] final(out)@[i])
                == final(s)@[i - old(out)@.len()],
    decreases old(s)@.len(),
{
    if s.len() == 0 {
        return ;
    }
    let (head, tail) = s.split_at_mut(1);
    match head.first_mut() {
        Some(v) => {
            out.push(v);
        },
        None => {},
    }
    push_each_mut(tail, out);
}

/// Mutable references to the elements of a list.
pub(crate) fn each_mut<V>(list: &mut Vec<V>) -> (r: Vec<&mut V>)
    ensures
        r@.len() == old(list)@.len(),
        final(list)@.len() == old(list)@.len(),
        forall|i: int| 0 <= i < r@.len() ==> *(#[trigger] r@[i]) == old(list)@[i],
        forall|i: int| 0 <= i < r@.len() ==> *final(#[trigger] r@[i]) == final(list)@[i],
{
    let mut out: Vec<&mut V> = Vec::new();
    push_each_mut(list.as_mut_slice(), &mut out);
    out
}

// ---------------------------------------------------------------------------
// Destinations
// ---------------------------------------------------------------------------

/// The variables of a destination.
pub open spec fn dest_vars<V>(d: IRBlockTargetId<V>) -> Seq<V> {
    match d {
        IRBlockTargetId::Dyn(v) => seq![v],
        _ => Seq::empty(),
    }
}

/// The variables of an outcome.
pub open spec fn dest_outcome<W, E>(r: Result<IRBlockTargetId<W>, E>) -> Result<Seq<W>, E> {
    match r {
        Ok(t) => Ok(dest_vars(t)),
        Err(e) => Err(e),
    }
}

/// Whether two destinations are the same but for their variables.
pub open spec fn same_dest<V, W>(a: IRBlockTargetId<V>, b: IRBlockTargetId<W>) -> bool {
    match a {
        IRBlockTargetId::Block(x) => b matches IRBlockTargetId::Block(y) && x == y,
        IRBlockTargetId::Return => b is Return,
        IRBlockTargetId::Dyn(_) => b is Dyn,
    }
}

impl<Var> IRBlockTargetId<Var> {
    /// The same destination with its variable translated.
    pub fn map<Ctx, NV, E, F: Fn(Ctx, Var) -> (Ctx, Result<NV, E>)>(self, ctx: Ctx, go: &F) -> (r: (
        Ctx,
        Result<IRBlockTargetId<NV>, E>,
    ))
        requires
            total(*go),
        ensures
            translated(
                by_function(*go),
                dest_vars(self),
                ctx,
                r.0,
                dest_outcome(r.1),
            ),
            r.1 matches Ok(t) ==> same_dest(self, t),
    {
        let ghost rel = by_function::<Ctx, Var, NV, E, F>(*go);
        match self {
            IRBlockTargetId::Block(b) => {
                proof {
                    lemma_translated_none::<Ctx, Var, NV, E>(rel, dest_vars(self), ctx);
                }
                (ctx, Ok(IRBlockTargetId::Block(b)))
            },
            IRBlockTargetId::Return => {
                proof {
                    lemma_translated_none::<Ctx, Var, NV, E>(rel, dest_vars(self), ctx);
                }
                (ctx, Ok(IRBlockTargetId::Return))
            },
            IRBlockTargetId::Dyn(v) => {
                let ghost x = v;
                let (c1, got) = go(ctx, v);
                proof {
                    lemma_translated_one(rel, x, ctx, c1, got);
                }
                match got {
                    Ok(w) => (c1, Ok(IRBlockTargetId::Dyn(w))),
                    Err(e) => (c1, Err(e)),
                }
            },
        }
    }

    /// The same destination with a reference to its variable.
    pub fn as_ref(&self) -> (r: IRBlockTargetId<&Var>)
        ensures
            same_dest(*self, r),
            forall|i: int|
                0 <= i < dest_vars(*self).len() ==> *(#[trigger] dest_vars(r)[i]) == dest_vars(
                    *self,
                )[i],
    {
        match self {
            IRBlockTargetId::Block(b) => IRBlockTargetId::Block(*b),
            IRBlockTargetId::Return => IRBlockTargetId::Return,
            IRBlockTargetId::Dyn(v) => IRBlockTargetId::Dyn(v),
        }
    }

    /// The same destination with a mutable reference to its variable.
    pub fn as_mut(&mut self) -> (r: IRBlockTargetId<&mut Var>)
        ensures
            same_dest(*old(self), r),
            same_dest(*old(self), *final(self)),
            forall|i: int|
                0 <= i < dest_vars(r).len() ==> *(#[trigger] dest_vars(r)[i]) == dest_vars(
                    *old(self),
                )[i],
            forall|i: int|
                0 <= i < dest_vars(r).len() ==> *final(#[trigger] dest_vars(r)[i]) == dest_vars(
                    *final(self),
                )[i],
    {
        match self {
            IRBlockTargetId::Block(b) => IRBlockTargetId::Block(*b),
            IRBlockTargetId::Return => IRBlockTargetId::Return,
            IRBlockTargetId::Dyn(v) => IRBlockTargetId::Dyn(v),
        }
    }
}

// ---------------------------------------------------------------------------
// Typed jumps
// ---------------------------------------------------------------------------

/// The variables, in order.
pub open spec fn branch_vars<V>(t: BranchView<V>) -> Seq<V> {
    dest_vars(t.dest) + t.args
}

/// The variables of an outcome.
pub open spec fn branch_outcome<W, E>(r: Result<IRBranchTarget<W>, E>) -> Result<Seq<W>, E> {
    match r {
        Ok(t) => Ok(branch_vars(t@)),
        Err(e) => Err(e),
    }
}

/// Whether two are the same but for their variables.
pub open spec fn same_branch<V, W>(a: BranchView<V>, b: BranchView<W>) -> bool {
    &&& same_dest(a.dest, b.dest)
    &&& a.args.len() == b.args.len()
    &&& a.reentry == b.reentry
}

impl<Var> IRBranchTarget<Var> {
    /// The same with every variable translated, in order and up to the first
    /// failure.
    pub fn map<Ctx, NV, E, F: Fn(Ctx, Var) -> (Ctx, Result<NV, E>)>(self, ctx: Ctx, go: &F) -> (r: (
        Ctx,
        Result<IRBranchTarget<NV>, E>,
    ))
        requires
            total(*go),
        ensures
            translated(
                by_function(*go),
                branch_vars(self@),
                ctx,
                r.0,
                branch_outcome(r.1),
            ),
            r.1 matches Ok(t) ==> same_branch(self@, t@),
    {
        let ghost rel = by_function::<Ctx, Var, NV, E, F>(*go);
        let ghost d = dest_vars(self.dest);
        let ghost a = self.args@;
        let (c1, got) = self.dest.map(ctx, go);
        let dest = match got {
            Ok(x) => x,
            Err(e) => {
                proof {
                    lemma_translated_cut::<Ctx, Var, NV, E>(rel, d, a, ctx, c1, e);
                }
                return (c1, Err(e));
            },
        };
        let ghost c1g = c1;
        let (c2, got) = map_list(self.args, c1, go);
        proof {
            lemma_translated_both(rel, d, a, ctx, c1g, c2, dest_vars(dest), listed(got));
        }
        match got {
            Ok(args) => (c2, Ok(IRBranchTarget { dest, args, reentry: self.reentry })),
            Err(e) => (c2, Err(e)),
        }
    }

    /// The same with references to the variables.
    pub fn as_ref(&self) -> (r: IRBranchTarget<&Var>)
        ensures
            same_branch(self@, r@),
            forall|i: int|
                0 <= i < branch_vars(self@).len() ==> *(#[trigger] branch_vars(r@)[i])
                    == branch_vars(self@)[i],
    {
        IRBranchTarget { dest: self.dest.as_ref(), args: each_ref(&self.args), reentry: clone_hint(&self.reentry) }
    }

    /// The same with mutable references to the variables.
    pub fn as_mut(&mut self) -> (r: IRBranchTarget<&mut Var>)
        ensures
            same_branch(old(self)@, r@),
            same_branch(old(self)@, final(self)@),
            forall|i: int|
                0 <= i < branch_vars(r@).len() ==> *(#[trigger] branch_vars(r@)[i]) == branch_vars(
                    old(self)@,
                )[i],
            forall|i: int|
                0 <= i < branch_vars(r@).len() ==> *final(#[trigger] branch_vars(r@)[i])
                    == branch_vars(final(self)@)[i],
    {
        IRBranchTarget { dest: self.dest.as_mut(), args: each_mut(&mut self.args), reentry: clone_hint(&self.reentry) }
    }
}

// ---------------------------------------------------------------------------
// Boolean jumps
// ---------------------------------------------------------------------------

/// The variables, in order.
pub open spec fn target_vars<V>(t: BIrTargetView<V>) -> Seq<V> {
    dest_vars(t.block) + t.args
}

/// The variables of an outcome.
pub open spec fn target_outcome<W, E>(r: Result<BIrTarget<W>, E>) -> Result<Seq<W>, E> {
    match r {
        Ok(t) => Ok(target_vars(t@)),
        Err(e) => Err(e),
    }
}

/// Whether two are the same but for their variables.
pub open spec fn same_target<V, W>(a: BIrTargetView<V>, b: BIrTargetView<W>) -> bool {
    &&& same_dest(a.block, b.block)
    &&& a.args.len() == b.args.len()
}

impl<Var> BIrTarget<Var> {
    /// The same with every variable translated, in order and up to the first
    /// failure.
    pub fn map<Ctx, NV, E, F: Fn(Ctx, Var) -> (Ctx, Result<NV, E>)>(self, ctx: Ctx, go: &F) -> (r: (
        Ctx,
        Result<BIrTarget<NV>, E>,
    ))
        requires
            total(*go),
        ensures
            translated(
                by_function(*go),
                target_vars(self@),
                ctx,
                r.0,
                target_outcome(r.1),
            ),
            r.1 matches Ok(t) ==> same_target(self@, t@),
    {
        let ghost rel = by_function::<Ctx, Var, NV, E, F>(*go);
        let ghost d = dest_vars(self.block);
        let ghost a = self.args@;
        let (c1, got) = self.block.map(ctx, go);
        let block = match got {
            Ok(x) => x,
            Err(e) => {
                proof {
                    lemma_translated_cut::<Ctx, Var, NV, E>(rel, d, a, ctx, c1, e);
                }
                return (c1, Err(e));
            },
        };
        let ghost c1g = c1;
        let (c2, got) = map_list(self.args, c1, go);
        proof {
            lemma_translated_both(rel, d, a, ctx, c1g, c2, dest_vars(block), listed(got));
        }
        match got {
            Ok(args) => (c2, Ok(BIrTarget { block, args })),
            Err(e) => (c2, Err(e)),
        }
    }

    /// The same with references to the variables.
    pub fn as_ref(&self) -> (r: BIrTarget<&Var>)
        ensures
            same_target(self@, r@),
            forall|i: int|
                0 <= i < target_vars(self@).len() ==> *(#[trigger] target_vars(r@)[i])
                    == target_vars(self@)[i],
    {
        BIrTarget { block: self.block.as_ref(), args: each_ref(&self.args) }
    }

    /// The same with mutable references to the variables.
    pub fn as_mut(&mut self) -> (r: BIrTarget<&mut Var>)
        ensures
            same_target(old(self)@, r@),
            same_target(old(self)@, final(self)@),
            forall|i: int|
                0 <= i < target_vars(r@).len() ==> *(#[trigger] target_vars(r@)[i]) == target_vars(
                    old(self)@,
                )[i],
            forall|i: int|
                0 <= i < target_vars(r@).len() ==> *final(#[trigger] target_vars(r@)[i])
                    == target_vars(final(self)@)[i],
    {
        BIrTarget { block: self.block.as_mut(), args: each_mut(&mut self.args) }
    }
}

// ---------------------------------------------------------------------------
// Ends of boolean blocks
// ---------------------------------------------------------------------------

/// The variables of an end, in order.
pub open spec fn bir_end_vars<V>(t: BIrTermView<V>) -> Seq<V> {
    match t {
        BIrTermView::Jmp(x) => target_vars(x),
        BIrTermView::CondJmp { val, then_target, else_target } => seq![val] + (target_vars(
            then_target,
        ) + target_vars(else_target)),
    }
}

/// The variables of an outcome.
pub open spec fn bir_end_outcome<W, E>(r: Result<BIrTerminator<W>, E>) -> Result<Seq<W>, E> {
    match r {
        Ok(t) => Ok(bir_end_vars(t@)),
        Err(e) => Err(e),
    }
}

/// Whether two ends are the same but for their variables.
pub open spec fn same_bir_end<V, W>(a: BIrTermView<V>, b: BIrTermView<W>) -> bool {
    match a {
        BIrTermView::Jmp(x) => b matches BIrTermView::Jmp(y) && same_target(x, y),
        BIrTermView::CondJmp { val: _, then_target, else_target } => b matches BIrTermView::CondJmp {
            val: _,
            then_target: t,
            else_target: e,
        } && same_target(then_target, t) && same_target(else_target, e),
    }
}

impl<Var> BIrTerminator<Var> {
    /// The same end with every variable translated, in order and up to the
    /// first failure.
    pub fn map<Ctx, NV, E, F: Fn(Ctx, Var) -> (Ctx, Result<NV, E>)>(self, ctx: Ctx, go: &F) -> (r: (
        Ctx,
        Result<BIrTerminator<NV>, E>,
    ))
        requires
            total(*go),
        ensures
            translated(
                by_function(*go),
                bir_end_vars(self@),
                ctx,
                r.0,
                bir_end_outcome(r.1),
            ),
            r.1 matches Ok(t) ==> same_bir_end(self@, t@),
    {
        let ghost rel = by_function::<Ctx, Var, NV, E, F>(*go);
        match self {
            BIrTerminator::Jmp(t) => {
                let (c1, got) = t.map(ctx, go);
                match got {
                    Ok(t) => (c1, Ok(BIrTerminator::Jmp(t))),
                    Err(e) => (c1, Err(e)),
                }
            },
            BIrTerminator::CondJmp { val, then_target, else_target } => {
                let ghost v = val;
                let ghost p1 = seq![v];
                let ghost p2 = target_vars(then_target@);
                let ghost p3 = target_vars(else_target@);
                let (c1, got) = go(ctx, val);
                proof {
                    lemma_translated_one(rel, v, ctx, c1, got);
                }
                let val = match got {
                    Ok(w) => w,
                    Err(e) => {
                        proof {
                            lemma_translated_cut::<Ctx, Var, NV, E>(rel, p1, p2 + p3, ctx, c1, e);
                        }
                        return (c1, Err(e));
                    },
                };
                let ghost g1 = c1;
                let (c2, got) = then_target.map(c1, go);
                let then_target = match got {
                    Ok(t) => t,
                    Err(e) => {
                        proof {
                            lemma_translated_cut::<Ctx, Var, NV, E>(rel, p2, p3, g1, c2, e);
                            lemma_translated_both(
                                rel,
                                p1,
                                p2 + p3,
                                ctx,
                                g1,
                                c2,
                                seq![val],
                                Err::<Seq<NV>, E>(e),
                            );
                        }
                        return (c2, Err(e));
                    },
                };
                let ghost g2 = c2;
                let ghost w2 = target_vars(then_target@);
                let (c3, got) = else_target.map(c2, go);
                let ghost last = target_outcome(got);
                proof {
                    lemma_translated_both(rel, p2, p3, g1, g2, c3, w2, last);
                    lemma_translated_both(
                        rel,
                        p1,
                        p2 + p3,
                        ctx,
                        g1,
                        c3,
                        seq![val],
                        behind(w2, last),
                    );
                }
                match got {
                    Ok(t) => (
                        c3,
                        Ok(BIrTerminator::CondJmp { val, then_target, else_target: t }),
                    ),
                    Err(e) => (c3, Err(e)),
                }
            },
        }
    }

    /// The same end with references to its variables.
    pub fn as_ref(&self) -> (r: BIrTerminator<&Var>)
        ensures
            same_bir_end(self@, r@),
            forall|i: int|
                0 <= i < bir_end_vars(self@).len() ==> *(#[trigger] bir_end_vars(r@)[i])
                    == bir_end_vars(self@)[i],
    {
        match self {
            BIrTerminator::Jmp(t) => BIrTerminator::Jmp(t.as_ref()),
            BIrTerminator::CondJmp { val, then_target, else_target } => {
                let t = then_target.as_ref();
                let e = else_target.as_ref();
                let r = BIrTerminator::CondJmp { val, then_target: t, else_target: e };
                proof {
                    lemma_parts(seq![*val], target_vars(then_target@), target_vars(else_target@));
                    lemma_parts(seq![val], target_vars(t@), target_vars(e@));
                }
                r
            },
        }
    }

    /// The same end with mutable references to its variables.
    pub fn as_mut(&mut self) -> (r: BIrTerminator<&mut Var>)
        ensures
            same_bir_end(old(self)@, r@),
            same_bir_end(old(self)@, final(self)@),
            forall|i: int|
                0 <= i < bir_end_vars(r@).len() ==> *(#[trigger] bir_end_vars(r@)[i])
                    == bir_end_vars(old(self)@)[i],
            forall|i: int|
                0 <= i < bir_end_vars(r@).len() ==> *final(#[trigger] bir_end_vars(r@)[i])
                    == bir_end_vars(final(self)@)[i],
    {
        match self {
            BIrTerminator::Jmp(t) => BIrTerminator::Jmp(t.as_mut()),
            BIrTerminator::CondJmp { val, then_target, else_target } => {
                BIrTerminator::CondJmp {
                    val,
                    then_target: then_target.as_mut(),
                    else_target: else_target.as_mut(),
                }
            },
        }
    }
}

/// The elements of three lists put together.
proof fn lemma_parts<V>(a: Seq<V>, b: Seq<V>, c: Seq<V>)
    ensures
        forall|i: int|
            0 <= i < a.len() + b.len() + c.len() ==> #[trigger] (a + (b + c))[i] == if i < a.len() {
                a[i]
            } else if i < a.len() + b.len() {
                b[i - a.len()]
            } else {
                c[i - a.len() - b.len()]
            },
{
}

// ---------------------------------------------------------------------------
// Ends of typed blocks
// ---------------------------------------------------------------------------

/// The variables of the cases of a jump table, in order.
pub open spec fn cases_vars<V>(cases: Seq<(Constant, BranchView<V>)>) -> Seq<V>
    decreases cases.len(),
{
    if cases.len() == 0 {
        Seq::empty()
    } else {
        cases_vars(cases.drop_last()) + branch_vars(cases.last().1)
    }
}

/// The variables of an end, in order.
pub open spec fn end_vars<V>(t: TermView<V>) -> Seq<V> {
    match t {
        TermView::Jmp { target } => branch_vars(target),
        TermView::JumpCond { condition, then_target, else_target } => seq![condition] + (
        branch_vars(then_target) + branch_vars(else_target)),
        TermView::JumpTable { index, cases } => seq![index] + cases_vars(cases),
    }
}

/// The variables of an outcome.
pub open spec fn end_outcome<W, E>(r: Result<IRTerminator<W>, E>) -> Result<Seq<W>, E> {
    match r {
        Ok(t) => Ok(end_vars(t@)),
        Err(e) => Err(e),
    }
}

/// Whether two lists of cases are the same but for their variables.
pub open spec fn same_cases<V, W>(
    a: Seq<(Constant, BranchView<V>)>,
    b: Seq<(Constant, BranchView<W>)>,
) -> bool {
    &&& a.len() == b.len()
    &&& forall|k: int|
        0 <= k < a.len() ==> (#[trigger] a[k]).0 == b[k].0 && same_branch(a[k].1, b[k].1)
}

/// Whether two ends are the same but for their variables.
pub open spec fn same_end<V, W>(a: TermView<V>, b: TermView<W>) -> bool {
    match a {
        TermView::Jmp { target } => b matches TermView::Jmp { target: t } && same_branch(target, t),
        TermView::JumpCond { condition: _, then_target, else_target } => b matches TermView::JumpCond {
            condition: _,
            then_target: t,
            else_target: e,
        } && same_branch(then_target, t) && same_branch(else_target, e),
        TermView::JumpTable { index: _, cases } => b matches TermView::JumpTable {
            index: _,
            cases: c,
        } && same_cases(cases, c),
    }
}

/// Translate the cases of a jump table.
fn map_cases<C, V, W, E, F: Fn(C, V) -> (C, Result<W, E>)>(
    cases: Vec<(Constant, IRBranchTarget<V>)>,
    ctx: C,
    go: &F,
) -> (r: (C, Result<Vec<(Constant, IRBranchTarget<W>)>, E>))
    requires
        total(*go),
    ensures
        match r.1 {
            Ok(out) => translated(
                by_function(*go),
                cases_vars(case_views(cases@)),
                ctx,
                r.0,
                Ok::<Seq<W>, E>(cases_vars(case_views(out@))),
            ) && same_cases(case_views(cases@), case_views(out@)),
            Err(e) => translated(
                by_function(*go),
                cases_vars(case_views(cases@)),
                ctx,
                r.0,
                Err::<Seq<W>, E>(e),
            ),
        },
{
    let ghost all = case_views(cases@);
    let ghost whole = cases@;
    let ghost start = ctx;
    let ghost rel = by_function::<C, V, W, E, F>(*go);
    let mut items = cases;
    let mut rest: Vec<(Constant, IRBranchTarget<V>)> = Vec::new();
    while items.len() > 0
        invariant
            items@.len() + rest@.len() == whole.len(),
            items@ == whole.take(items@.len() as int),
            forall|i: int|
                0 <= i < rest@.len() ==> rest@[i] == #[trigger] whole[whole.len() - 1 - i],
        decreases items@.len(),
    {
        match items.pop() {
            Some(v) => {
                rest.push(v);
            },
            None => {},
        }
        proof {
            let n = rest@.len() as int;
            assert forall|i: int| 0 <= i < n implies rest@[i] == #[trigger] whole[whole.len() - 1
                - i] by {}
            assert(items@ =~= whole.take(items@.len() as int));
        }
    }
    let mut out: Vec<(Constant, IRBranchTarget<W>)> = Vec::new();
    let mut now: C = ctx;
    proof {
        assert(all.take(0) =~= Seq::empty());
        assert(cases_vars(all.take(0)) =~= Seq::empty());
        lemma_translated_none::<C, V, W, E>(rel, cases_vars(all.take(0)), now);
        assert(case_views(out@) =~= Seq::empty());
        assert(cases_vars(case_views(out@)) =~= Seq::empty());
    }
    while rest.len() > 0
        invariant
            total(*go),
            rel == by_function::<C, V, W, E, F>(*go),
            start == ctx,
            whole == cases@,
            all == case_views(whole),
            out@.len() + rest@.len() == whole.len(),
            forall|i: int|
                0 <= i < rest@.len() ==> #[trigger] rest@[i] == whole[whole.len() - 1 - i],
            same_cases(all.take(out@.len() as int), case_views(out@)),
            translated(
                rel,
                cases_vars(all.take(out@.len() as int)),
                start,
                now,
                Ok::<Seq<W>, E>(cases_vars(case_views(out@))),
            ),
        decreases rest@.len(),
    {
        let ghost n = out@.len() as int;
        let ghost c0 = now;
        let ghost before = out@;
        proof {
            assert(rest@[rest@.len() - 1] == whole[n]);
            assert(all[n] == (whole[n].0, whole[n].1@));
            assert(all.take(n + 1).drop_last() =~= all.take(n));
            assert(all.take(n + 1).last() == all[n]);
        }
        match rest.pop() {
            Some((k, t)) => {
                let ghost tv = t@;
                let (c1, got) = t.map(now, go);
                proof {
                    lemma_translated_both(
                        rel,
                        cases_vars(all.take(n)),
                        branch_vars(tv),
                        start,
                        c0,
                        c1,
                        cases_vars(case_views(before)),
                        branch_outcome(got),
                    );
                }
                match got {
                    Ok(t) => {
                        let ghost w = t@;
                        out.push((k, t));
                        proof {
                            assert(case_views(out@) =~= case_views(before).push((k, w)));
                            assert(case_views(out@).drop_last() =~= case_views(before));
                            assert(same_cases(all.take(n + 1), case_views(out@))) by {
                                assert forall|j: int| 0 <= j < n + 1 implies (
                                #[trigger] all.take(n + 1)[j]).0 == case_views(out@)[j].0
                                    && same_branch(all.take(n + 1)[j].1, case_views(out@)[j].1) by {
                                    if j < n {
                                        assert(all.take(n + 1)[j] == all.take(n)[j]);
                                        assert(case_views(out@)[j] == case_views(before)[j]);
                                    }
                                }
                            }
                        }
                    },
                    Err(e) => {
                        proof {
                            lemma_cases_cut::<C, V, W, E>(rel, all, n + 1, start, c1, e);
                        }
                        return (c1, Err(e));
                    },
                }
                now = c1;
            },
            None => {},
        }
    }
    assert(all.take(out@.len() as int) =~= all);
    (now, Ok(out))
}

/// A failure in the first cases is a failure of all.
proof fn lemma_cases_cut<C, V, W, E>(
    rel: spec_fn(C, V, C, Result<W, E>) -> bool,
    all: Seq<(Constant, BranchView<V>)>,
    n: int,
    c0: C,
    c1: C,
    e: E,
)
    requires
        0 <= n <= all.len(),
        translated(rel, cases_vars(all.take(n)), c0, c1, Err::<Seq<W>, E>(e)),
    ensures
        translated(rel, cases_vars(all), c0, c1, Err::<Seq<W>, E>(e)),
    decreases all.len() - n,
{
    if n == all.len() {
        assert(all.take(n) =~= all);
    } else {
        assert(all.take(n + 1).drop_last() =~= all.take(n));
        lemma_translated_cut::<C, V, W, E>(
            rel,
            cases_vars(all.take(n)),
            branch_vars(all[n].1),
            c0,
            c1,
            e,
        );
        lemma_cases_cut::<C, V, W, E>(rel, all, n + 1, c0, c1, e);
    }
}

/// References to the variables of cases.
fn ref_cases<V>(cases: &Vec<(Constant, IRBranchTarget<V>)>) -> (r: Vec<
    (Constant, IRBranchTarget<&V>),
>)
    ensures
        same_cases(case_views(cases@), case_views(r@)),
        forall|i: int|
            0 <= i < cases_vars(case_views(cases@)).len() ==> *(#[trigger] cases_vars(
                case_views(r@),
            )[i]) == cases_vars(case_views(cases@))[i],
{
    let ghost all = case_views(cases@);
    let mut out: Vec<(Constant, IRBranchTarget<&V>)> = Vec::new();
    let mut i: usize = 0;
    proof {
        assert(all.take(0) =~= Seq::empty());
        assert(case_views(out@) =~= Seq::empty());
    }
    while i < cases.len()
        invariant
            i <= cases@.len(),
            all == case_views(cases@),
            out@.len() == i,
            same_cases(all.take(i as int), case_views(out@)),
            cases_vars(all.take(i as int)).len() == cases_vars(case_views(out@)).len(),
            forall|j: int|
                0 <= j < cases_vars(all.take(i as int)).len() ==> *(#[trigger] cases_vars(
                    case_views(out@),
                )[j]) == cases_vars(all.take(i as int))[j],
        decreases cases@.len() - i,
    {
        let ghost n = i as int;
        let ghost before = out@;
        let t = cases[i].1.as_ref();
        let ghost tv = t@;
        let ghost key = cases@[n].0;
        out.push((cases[i].0, t));
        proof {
            assert(all[n] == (cases@[n].0, cases@[n].1@));
            assert(all.take(n + 1).drop_last() =~= all.take(n));
            assert(all.take(n + 1).last() == all[n]);
            assert(case_views(out@) =~= case_views(before).push((key, tv)));
            assert(case_views(out@).drop_last() =~= case_views(before));
            assert forall|j: int| 0 <= j < n + 1 implies (#[trigger] all.take(n + 1)[j]).0
                == case_views(out@)[j].0 && same_branch(all.take(n + 1)[j].1, case_views(out@)[j].1) by {
                if j < n {
                    assert(all.take(n + 1)[j] == all.take(n)[j]);
                    assert(case_views(out@)[j] == case_views(before)[j]);
                }
            }
            let m = cases_vars(all.take(n)).len() as int;
            assert(branch_vars(tv).len() == branch_vars(all[n].1).len());
            assert forall|j: int| 0 <= j < cases_vars(all.take(n + 1)).len() implies *(
            #[trigger] cases_vars(case_views(out@))[j]) == cases_vars(all.take(n + 1))[j] by {
                if j < m {
                    assert(cases_vars(case_views(out@))[j] == cases_vars(case_views(before))[j]);
                    assert(cases_vars(all.take(n + 1))[j] == cases_vars(all.take(n))[j]);
                } else {
                    assert(cases_vars(case_views(out@))[j] == branch_vars(tv)[j - m]);
                    assert(cases_vars(all.take(n + 1))[j] == branch_vars(all[n].1)[j - m]);
                }
            }
        }
        i += 1;
    }
    assert(all.take(i as int) =~= all);
    out
}

impl<Var> IRTerminator<Var> {
    /// The same end with every variable translated, in order and up to the
    /// first failure.
    pub fn map<Ctx, NV, E, F: Fn(Ctx, Var) -> (Ctx, Result<NV, E>)>(self, ctx: Ctx, go: &F) -> (r: (
        Ctx,
        Result<IRTerminator<NV>, E>,
    ))
        requires
            total(*go),
        ensures
            translated(by_function(*go), end_vars(self@), ctx, r.0, end_outcome(r.1)),
            r.1 matches Ok(t) ==> same_end(self@, t@),
    {
        let ghost rel = by_function::<Ctx, Var, NV, E, F>(*go);
        match self {
            IRTerminator::Jmp { target } => {
                let (c1, got) = target.map(ctx, go);
                match got {
                    Ok(target) => (c1, Ok(IRTerminator::Jmp { target })),
                    Err(e) => (c1, Err(e)),
                }
            },
            IRTerminator::JumpCond { condition, then_target, else_target } => {
                let ghost v = condition;
                let ghost p1 = seq![v];
                let ghost p2 = branch_vars(then_target@);
                let ghost p3 = branch_vars(else_target@);
                let (c1, got) = go(ctx, condition);
                proof {
                    lemma_translated_one(rel, v, ctx, c1, got);
                }
                let condition = match got {
                    Ok(w) => w,
                    Err(e) => {
                        proof {
                            lemma_translated_cut::<Ctx, Var, NV, E>(rel, p1, p2 + p3, ctx, c1, e);
                        }
                        return (c1, Err(e));
                    },
                };
                let ghost g1 = c1;
                let (c2, got) = then_target.map(c1, go);
                let then_target = match got {
                    Ok(t) => t,
                    Err(e) => {
                        proof {
                            lemma_translated_cut::<Ctx, Var, NV, E>(rel, p2, p3, g1, c2, e);
                            lemma_translated_both(
                                rel,
                                p1,
                                p2 + p3,
                                ctx,
                                g1,
                                c2,
                                seq![condition],
                                Err::<Seq<NV>, E>(e),
                            );
                        }
                        return (c2, Err(e));
                    },
                };
                let ghost g2 = c2;
                let ghost w2 = branch_vars(then_target@);
                let (c3, got) = else_target.map(c2, go);
                let ghost last = branch_outcome(got);
                proof {
                    lemma_translated_both(rel, p2, p3, g1, g2, c3, w2, last);
                    lemma_translated_both(
                        rel,
                        p1,
                        p2 + p3,
                        ctx,
                        g1,
                        c3,
                        seq![condition],
                        behind(w2, last),
                    );
                }
                match got {
                    Ok(t) => (
                        c3,
                        Ok(IRTerminator::JumpCond { condition, then_target, else_target: t }),
                    ),
                    Err(e) => (c3, Err(e)),
                }
            },
            IRTerminator::JumpTable { index, cases } => {
                let ghost v = index;
                let ghost p1 = seq![v];
                let ghost p2 = cases_vars(case_views(cases@));
                let (c1, got) = go(ctx, index);
                proof {
                    lemma_translated_one(rel, v, ctx, c1, got);
                }
                let index = match got {
                    Ok(w) => w,
                    Err(e) => {
                        proof {
                            lemma_translated_cut::<Ctx, Var, NV, E>(rel, p1, p2, ctx, c1, e);
                        }
                        return (c1, Err(e));
                    },
                };
                let ghost g1 = c1;
                let (c2, got) = map_cases(cases, c1, go);
                match got {
                    Ok(out) => {
                        proof {
                            lemma_translated_both(
                                rel,
                                p1,
                                p2,
                                ctx,
                                g1,
                                c2,
                                seq![index],
                                Ok::<Seq<NV>, E>(cases_vars(case_views(out@))),
                            );
                        }
                        (c2, Ok(IRTerminator::JumpTable { index, cases: out }))
                    },
                    Err(e) => {
                        proof {
                            lemma_translated_both(
                                rel,
                                p1,
                                p2,
                                ctx,
                                g1,
                                c2,
                                seq![index],
                                Err::<Seq<NV>, E>(e),
                            );
                        }
                        (c2, Err(e))
                    },
                }
            },
        }
    }

    /// The same end with references to its variables.
    pub fn as_ref(&self) -> (r: IRTerminator<&Var>)
        ensures
            same_end(self@, r@),
            forall|i: int|
                0 <= i < end_vars(self@).len() ==> *(#[trigger] end_vars(r@)[i]) == end_vars(
                    self@,
                )[i],
    {
        match self {
            IRTerminator::Jmp { target } => IRTerminator::Jmp { target: target.as_ref() },
            IRTerminator::JumpCond { condition, then_target, else_target } => {
                let t = then_target.as_ref();
                let e = else_target.as_ref();
                proof {
                    lemma_parts(
                        seq![*condition],
                        branch_vars(then_target@),
                        branch_vars(else_target@),
                    );
                    lemma_parts(seq![condition], branch_vars(t@), branch_vars(e@));
                }
                IRTerminator::JumpCond { condition, then_target: t, else_target: e }
            },
            IRTerminator::JumpTable { index, cases } => {
                let out = ref_cases(cases);
                proof {
                    lemma_cases_length(case_views(cases@), case_views(out@));
                    lemma_parts(seq![*index], Seq::empty(), cases_vars(case_views(cases@)));
                    lemma_parts(seq![index], Seq::empty(), cases_vars(case_views(out@)));
                    assert(Seq::empty() + cases_vars(case_views(cases@)) =~= cases_vars(
                        case_views(cases@),
                    ));
                    assert(Seq::empty() + cases_vars(case_views(out@)) =~= cases_vars(
                        case_views(out@),
                    ));
                }
                IRTerminator::JumpTable { index, cases: out }
            },
        }
    }

    /// The same end with mutable references to its variables.
    pub fn as_mut(&mut self) -> (r: IRTerminator<&mut Var>)
        ensures
            same_end(old(self)@, r@),
            same_end(old(self)@, final(self)@),
            match r@ {
                TermView::JumpTable { index, cases } => {
                    &&& *index == old(self)@->JumpTable_index
                    &&& *final(index) == final(self)@->JumpTable_index
                    &&& forall|k: int, i: int|
                        0 <= k < cases.len() && 0 <= i < branch_vars(cases[k].1).len() ==> *(
                        #[trigger] branch_vars(cases[k].1)[i]) == branch_vars(
                            old(self)@->cases[k].1,
                        )[i]
                    &&& forall|k: int, i: int|
                        0 <= k < cases.len() && 0 <= i < branch_vars(cases[k].1).len() ==> *final(#[trigger] branch_vars(cases[k].1)[i]) == branch_vars(
                            final(self)@->cases[k].1,
                        )[i]
                },
                _ => {
                    &&& forall|i: int|
                        0 <= i < end_vars(r@).len() ==> *(#[trigger] end_vars(r@)[i]) == end_vars(
                            old(self)@,
                        )[i]
                    &&& forall|i: int|
                        0 <= i < end_vars(r@).len() ==> *final(#[trigger] end_vars(r@)[i])
                            == end_vars(final(self)@)[i]
                },
            },
    {
        match self {
            IRTerminator::Jmp { target } => IRTerminator::Jmp { target: target.as_mut() },
            IRTerminator::JumpCond { condition, then_target, else_target } => {
                IRTerminator::JumpCond {
                    condition,
                    then_target: then_target.as_mut(),
                    else_target: else_target.as_mut(),
                }
            },
            IRTerminator::JumpTable { index, cases } => {
                let mut out: Vec<(Constant, IRBranchTarget<&mut Var>)> = Vec::new();
                push_cases_mut(cases.as_mut_slice(), &mut out);
                IRTerminator::JumpTable { index, cases: out }
            },
        }
    }
}

/// Cases that are the same but for their variables have as many.
proof fn lemma_cases_length<V, W>(
    a: Seq<(Constant, BranchView<V>)>,
    b: Seq<(Constant, BranchView<W>)>,
)
    requires
        same_cases(a, b),
    ensures
        cases_vars(a).len() == cases_vars(b).len(),
    decreases a.len(),
{
    if a.len() > 0 {
        let n = a.len() - 1;
        assert(a[n].0 == b[n].0);
        assert forall|k: int| 0 <= k < n implies (#[trigger] a.drop_last()[k]).0
            == b.drop_last()[k].0 && same_branch(a.drop_last()[k].1, b.drop_last()[k].1) by {
            assert(a[k].0 == b[k].0);
        }
        lemma_cases_length(a.drop_last(), b.drop_last());
    }
}

/// Append mutable references to the variables of cases.
fn push_cases_mut<'a, V>(
    s: &'a mut [(Constant, IRBranchTarget<V>)],
    out: &mut Vec<(Constant, IRBranchTarget<&'a mut V>)>,
)
    ensures
        final(out)@.len() == old(out)@.len() + old(s)@.len(),
        final(s)@.len() == old(s)@.len(),
        forall|k: int| 0 <= k < old(out)@.len() ==> #[trigger] final(out)@[k] == old(out)@[k],
        forall|k: int|
            old(out)@.len() <= k < final(out)@.len() ==> {
                let a = old(s)@[k - old(out)@.len()];
                let b = final(s)@[k - old(out)@.len()];
                let x = #[trigger] final(out)@[k];
                &&& x.0 == a.0
                &&& x.0 == b.0
                &&& same_branch(a.1@, x.1@)
                &&& same_branch(a.1@, b.1@)
                &&& forall|i: int|
                    0 <= i < branch_vars(x.1@).len() ==> *(#[trigger] branch_vars(x.1@)[i])
                        == branch_vars(a.1@)[i]
                &&& forall|i: int|
                    0 <= i < branch_vars(x.1@).len() ==> *final(#[trigger] branch_vars(x.1@)[i])
                        == branch_vars(b.1@)[i]
            },
    decreases old(s)@.len(),
{
    if s.len() == 0 {
        return ;
    }
    let (head, tail) = s.split_at_mut(1);
    match head.first_mut() {
        Some(v) => {
            let key: Constant = v.0;
            out.push((key, v.1.as_mut()));
        },
        None => {},
    }
    push_cases_mut(tail, out);
}

} // verus!
