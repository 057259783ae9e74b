//! The typed SSA block IR.
//!
//! A module is a list of blocks. Variables are numbered within a block: first
//! its parameters, then one number for each statement.

use vstd::prelude::*;

use crate::common::{
    action_views, map_prov_nodes, oracle_views, pre_init_views, prov_mapped, rng_views, turned,
    type_ids_eq, ActionDecl, CallDeclView, Constant, MeasureSpec, Node, OracleDecl, PreInitSegment,
    PreInitView, ProvenanceHandler, ReentryHint, RngDecl, RngDeclView, SideId, StorageId,
};
use crate::sorted::{
    assoc_get, assoc_insert, assoc_remove, assoc_sorted, law_assoc_insert_sorted,
    lemma_assoc_get_at, lemma_assoc_insert_at, lemma_assoc_remove_at, strict_order,
};

pub use crate::common::{IrType as IRType, Type as PrimType, TypeId as IRTypeId, TypeTable as IRTypes};

verus! {

/// A block of a module, by position.
#[derive(Clone, Copy, PartialEq, Eq, PartialOrd, Ord, Hash, Debug, Structural)]
pub struct IRBlockId(pub u32);

/// A variable of a block.
#[derive(Clone, Copy, PartialEq, Eq, PartialOrd, Ord, Hash, Debug, Structural)]
pub struct IRVarId(pub u32);

/// Whether two variable lists are equal, element by element.
pub fn vars_eq(a: &Vec<IRVarId>, b: &Vec<IRVarId>) -> (r: bool)
    ensures
        r == (a@ == b@),
{
    if a.len() != b.len() {
        return false;
    }
    let mut i: usize = 0;
    while i < a.len()
        invariant
            i <= a.len(),
            a.len() == b.len(),
            forall|j: int| 0 <= j < i ==> a@[j] == b@[j],
        decreases a.len() - i,
    {
        if a[i] != b[i] {
            assert(a@[i as int] != b@[i as int]);
            return false;
        }
        i += 1;
    }
    assert(a@ =~= b@);
    true
}

// ---------------------------------------------------------------------------
// Polynomial coefficients
// ---------------------------------------------------------------------------

/// The order of monomials: by their variables, one after the other, a prefix
/// before its extensions.
pub open spec fn vars_less(a: Seq<IRVarId>, b: Seq<IRVarId>) -> bool
    decreases a.len(),
{
    if b.len() == 0 {
        false
    } else if a.len() == 0 {
        true
    } else if a[0].0 != b[0].0 {
        a[0].0 < b[0].0
    } else {
        vars_less(a.drop_first(), b.drop_first())
    }
}

/// [`vars_less`] as a value.
pub open spec fn vars_order() -> spec_fn(Seq<IRVarId>, Seq<IRVarId>) -> bool {
    |a: Seq<IRVarId>, b: Seq<IRVarId>| vars_less(a, b)
}

proof fn lemma_vars_less_asymmetric(a: Seq<IRVarId>, b: Seq<IRVarId>)
    requires
        vars_less(a, b),
    ensures
        a != b,
        !vars_less(b, a),
    decreases a.len(),
{
    if a.len() > 0 && b.len() > 0 && a[0].0 == b[0].0 {
        lemma_vars_less_asymmetric(a.drop_first(), b.drop_first());
    }
}

proof fn lemma_vars_less_transitive(a: Seq<IRVarId>, b: Seq<IRVarId>, c: Seq<IRVarId>)
    requires
        vars_less(a, b),
        vars_less(b, c),
    ensures
        vars_less(a, c),
    decreases a.len(),
{
    if a.len() > 0 && b.len() > 0 && c.len() > 0 && a[0].0 == b[0].0 && b[0].0 == c[0].0 {
        lemma_vars_less_transitive(a.drop_first(), b.drop_first(), c.drop_first());
    }
}

proof fn lemma_vars_less_total(a: Seq<IRVarId>, b: Seq<IRVarId>)
    ensures
        a == b || vars_less(a, b) || vars_less(b, a),
    decreases a.len(),
{
    if a.len() > 0 && b.len() > 0 && a[0].0 == b[0].0 {
        lemma_vars_less_total(a.drop_first(), b.drop_first());
        if a.drop_first() == b.drop_first() {
            assert(a[0] == b[0]);
            assert(a =~= seq![a[0]] + a.drop_first());
            assert(b =~= seq![b[0]] + b.drop_first());
        }
    } else if a.len() == 0 && b.len() == 0 {
        assert(a =~= b);
    }
}

/// Monomials are totally ordered.
pub proof fn lemma_vars_order()
    ensures
        strict_order(vars_order()),
{
    let less = vars_order();
    assert forall|a: Seq<IRVarId>, b: Seq<IRVarId>| #[trigger] less(a, b) implies a != b
        && !less(b, a) by {
        lemma_vars_less_asymmetric(a, b);
    }
    assert forall|a: Seq<IRVarId>, b: Seq<IRVarId>, c: Seq<IRVarId>| #[trigger]
        less(a, b) && #[trigger] less(b, c) implies less(a, c) by {
        lemma_vars_less_transitive(a, b, c);
    }
    assert forall|a: Seq<IRVarId>, b: Seq<IRVarId>| a == b || #[trigger] less(a, b) || less(
        b,
        a,
    ) by {
        lemma_vars_less_total(a, b);
    }
}

/// Whether the monomial `a` comes before `b`.
pub fn vars_is_less(a: &Vec<IRVarId>, b: &Vec<IRVarId>) -> (r: bool)
    ensures
        r == vars_less(a@, b@),
{
    let mut i: usize = 0;
    assert(a@.skip(0) == a@);
    assert(b@.skip(0) == b@);
    while i < a.len() && i < b.len()
        invariant
            i <= a.len(),
            i <= b.len(),
            vars_less(a@, b@) == vars_less(a@.skip(i as int), b@.skip(i as int)),
        decreases a.len() - i,
    {
        if a[i].0 != b[i].0 {
            return a[i].0 < b[i].0;
        }
        assert(a@.skip(i as int).drop_first() == a@.skip(i + 1));
        assert(b@.skip(i as int).drop_first() == b@.skip(i + 1));
        i += 1;
    }
    i < b.len()
}

/// The coefficients of a polynomial, one for each monomial, in monomial order.
#[derive(PartialEq, Eq, PartialOrd, Ord, Hash, Debug)]
pub struct PolyCoeffs {
    pub terms: Vec<(Vec<IRVarId>, u8)>,
}

impl View for PolyCoeffs {
    type V = Seq<(Seq<IRVarId>, u8)>;

    open spec fn view(&self) -> Seq<(Seq<IRVarId>, u8)> {
        self.terms@.map_values(|t: (Vec<IRVarId>, u8)| (t.0@, t.1))
    }
}

impl PolyCoeffs {
    /// Whether the monomials are in strictly increasing order.
    pub open spec fn wf(&self) -> bool {
        assoc_sorted(self@, vars_order())
    }

    /// No coefficients.
    pub fn new() -> (r: Self)
        ensures
            r@ == Seq::<(Seq<IRVarId>, u8)>::empty(),
            r.wf(),
    {
        let r = PolyCoeffs { terms: Vec::new() };
        assert(r@ =~= Seq::<(Seq<IRVarId>, u8)>::empty());
        r
    }

    /// The position of the first monomial that does not come before `vars`.
    fn position(&self, vars: &Vec<IRVarId>) -> (i: usize)
        ensures
            i <= self@.len(),
            forall|j: int| 0 <= j < i ==> vars_less((#[trigger] self@[j]).0, vars@),
            i < self@.len() ==> !vars_less(self@[i as int].0, vars@),
    {
        let mut i: usize = 0;
        while i < self.terms.len()
            invariant
                i <= self.terms.len(),
                forall|j: int| 0 <= j < i ==> vars_less((#[trigger] self@[j]).0, vars@),
            decreases self.terms.len() - i,
        {
            if !vars_is_less(&self.terms[i].0, vars) {
                return i;
            }
            i += 1;
        }
        i
    }

    /// Give the monomial `vars` the coefficient `coeff`.
    pub fn insert(&mut self, vars: Vec<IRVarId>, coeff: u8)
        ensures
            final(self)@ == assoc_insert(old(self)@, vars@, coeff, vars_order()),
            old(self).wf() ==> final(self).wf(),
    {
        let i = self.position(&vars);
        let ghost s = self@;
        let ghost k = vars@;
        proof {
            lemma_vars_order();
            assert forall|j: int| 0 <= j < i implies (#[trigger] s[j]).0 != k && !vars_order()(
                k,
                s[j].0,
            ) by {
                assert(vars_order()(s[j].0, k));
            }
            lemma_assoc_insert_at(s, k, coeff, vars_order(), i as int);
            if old(self).wf() {
                law_assoc_insert_sorted(s, k, coeff, vars_order());
            }
        }
        if i < self.terms.len() && vars_eq(&self.terms[i].0, &vars) {
            self.terms.set(i, (vars, coeff));
            assert(s.skip(i as int)[0].0 == k);
            assert(self@ =~= s.take(i as int) + (seq![(k, coeff)] + s.skip(i as int).drop_first()));
        } else {
            proof {
                if i < s.len() {
                    assert(s.skip(i as int)[0] == s[i as int]);
                    assert(vars_order()(k, s[i as int].0));
                }
            }
            self.terms.insert(i, (vars, coeff));
            proof {
                let rest = s.skip(i as int);
                if i < s.len() {
                    assert(assoc_insert(rest, k, coeff, vars_order()) == seq![(k, coeff)] + rest);
                } else {
                    assert(assoc_insert(rest, k, coeff, vars_order()) == seq![(k, coeff)]);
                }
                assert(self@ =~= s.take(i as int) + assoc_insert(rest, k, coeff, vars_order()));
            }
        }
    }

    /// The coefficient of the monomial `vars`, if it has one.
    pub fn get(&self, vars: &Vec<IRVarId>) -> (r: Option<u8>)
        ensures
            r == assoc_get(self@, vars@),
    {
        let mut i: usize = 0;
        while i < self.terms.len()
            invariant
                i <= self.terms.len(),
                forall|j: int| 0 <= j < i ==> (#[trigger] self@[j]).0 != vars@,
            decreases self.terms.len() - i,
        {
            if vars_eq(&self.terms[i].0, vars) {
                proof {
                    lemma_assoc_get_at(self@, vars@, i as int);
                    assert(self@.skip(i as int)[0] == self@[i as int]);
                }
                return Some(self.terms[i].1);
            }
            i += 1;
        }
        proof {
            lemma_assoc_get_at(self@, vars@, i as int);
        }
        None
    }

    /// Drop the monomial `vars`.
    pub fn remove(&mut self, vars: &Vec<IRVarId>)
        ensures
            final(self)@ == assoc_remove(old(self)@, vars@),
    {
        let mut i: usize = 0;
        while i < self.terms.len()
            invariant
                i <= self.terms.len(),
                self == old(self),
                forall|j: int| 0 <= j < i ==> (#[trigger] self@[j]).0 != vars@,
            decreases self.terms.len() - i,
        {
            if vars_eq(&self.terms[i].0, vars) {
                let ghost s = self@;
                self.terms.remove(i);
                proof {
                    lemma_assoc_remove_at(s, vars@, i as int);
                    assert(s.skip(i as int)[0] == s[i as int]);
                    assert(self@ =~= s.take(i as int) + s.skip(i as int).drop_first());
                }
                return ;
            }
            i += 1;
        }
        proof {
            lemma_assoc_remove_at(self@, vars@, i as int);
            assert(self@ =~= self@.take(i as int) + self@.skip(i as int));
        }
    }

    /// Whether two coefficient lists are the same.
    pub fn same(&self, other: &PolyCoeffs) -> (r: bool)
        ensures
            r == (self@ == other@),
    {
        if self.terms.len() != other.terms.len() {
            assert(self@.len() != other@.len());
            return false;
        }
        let mut i: usize = 0;
        while i < self.terms.len()
            invariant
                i <= self.terms.len(),
                self.terms.len() == other.terms.len(),
                forall|j: int| 0 <= j < i ==> self@[j] == other@[j],
            decreases self.terms.len() - i,
        {
            if self.terms[i].1 != other.terms[i].1 || !vars_eq(
                &self.terms[i].0,
                &other.terms[i].0,
            ) {
                assert(self@[i as int] != other@[i as int]);
                return false;
            }
            i += 1;
        }
        assert(self@ =~= other@);
        true
    }
}

impl Clone for PolyCoeffs {
    fn clone(&self) -> (r: Self)
        ensures
            r@ == self@,
    {
        let mut terms: Vec<(Vec<IRVarId>, u8)> = Vec::new();
        let mut i: usize = 0;
        while i < self.terms.len()
            invariant
                i <= self.terms.len(),
                terms@.len() == i,
                forall|j: int|
                    0 <= j < i ==> (#[trigger] terms@[j]).0@ == self.terms@[j].0@ && terms@[j].1
                        == self.terms@[j].1,
            decreases self.terms.len() - i,
        {
            terms.push((self.terms[i].0.clone(), self.terms[i].1));
            i += 1;
        }
        let r = PolyCoeffs { terms };
        assert(r@ =~= self@);
        r
    }
}

// ---------------------------------------------------------------------------
// Statements
// ---------------------------------------------------------------------------

/// A cell that an action store writes.
#[derive(Clone, Copy, PartialEq, Eq, PartialOrd, Ord, Hash, Debug, Structural)]
pub struct ActionTarget {
    pub storage: StorageId,
    pub ty: IRTypeId,
    pub addr: IRVarId,
}

/// A statement.
#[derive(PartialEq, Eq, PartialOrd, Ord, Hash, Debug)]
pub enum Stmt {
    /// A constant of the given type.
    Const(Constant, IRTypeId),
    /// Read the cell at `addr`.
    StorageRead { storage: StorageId, ty: IRTypeId, addr: IRVarId },
    /// Write `src` to the cell at `addr`; defines no value.
    StorageWrite { storage: StorageId, src: IRVarId, ty: IRTypeId, addr: IRVarId },
    /// The bits of `src` read as another type.
    Transmute { src: IRVarId, src_ty: IRTypeId, dst_ty: IRTypeId },
    /// A polynomial in variables: the sum of its terms and its constant.
    Poly { ty: IRTypeId, coeffs: PolyCoeffs, constant: Constant },
    /// Rotate left.
    Rol { src: IRVarId, ty: IRTypeId, n: usize },
    /// Rotate right.
    Ror { src: IRVarId, ty: IRTypeId, n: usize },
    /// Concatenate parts into one value.
    Merge { parts: Vec<IRVarId>, ty: IRTypeId },
    /// Repeat one value.
    Splat { src: IRVarId, ty: IRTypeId },
    /// Pick each result bit out of a variable.
    Shuffle { result_bits: Vec<(u8, IRVarId)>, ty: IRTypeId },
    /// Call an oracle; the result is a handle.
    OracleCall { name: String, args: Vec<IRVarId>, output_tys: Vec<IRTypeId>, result_ty: IRTypeId },
    /// One output of an oracle call.
    OracleOutput { call: IRVarId, idx: usize, ty: IRTypeId },
    /// Call an action if `guard` holds; the result is a handle.
    ActionCall { name: String, guard: IRVarId, args: Vec<IRVarId>, fallbacks: Vec<IRVarId>, output_tys: Vec<IRTypeId>, result_ty: IRTypeId },
    /// One output of an action call.
    ActionOutput { call: IRVarId, idx: usize, ty: IRTypeId },
    /// Call an action and store its outputs; defines no value.
    ActionStore { name: String, guard: IRVarId, args: Vec<IRVarId>, targets: Vec<ActionTarget> },
    /// A fresh random value.
    Rng { name: String, ty: IRTypeId },
}

/// A statement of a block.
pub type IRStmt = Stmt;

/// What a [`Stmt`] denotes.
#[verifier::ext_equal]
pub enum StmtView {
    Const(Constant, IRTypeId),
    StorageRead { storage: StorageId, ty: IRTypeId, addr: IRVarId },
    StorageWrite { storage: StorageId, src: IRVarId, ty: IRTypeId, addr: IRVarId },
    Transmute { src: IRVarId, src_ty: IRTypeId, dst_ty: IRTypeId },
    Poly { ty: IRTypeId, coeffs: Seq<(Seq<IRVarId>, u8)>, constant: Constant },
    Rol { src: IRVarId, ty: IRTypeId, n: usize },
    Ror { src: IRVarId, ty: IRTypeId, n: usize },
    Merge { parts: Seq<IRVarId>, ty: IRTypeId },
    Splat { src: IRVarId, ty: IRTypeId },
    Shuffle { result_bits: Seq<(u8, IRVarId)>, ty: IRTypeId },
    OracleCall { name: Seq<char>, args: Seq<IRVarId>, output_tys: Seq<IRTypeId>, result_ty: IRTypeId },
    OracleOutput { call: IRVarId, idx: usize, ty: IRTypeId },
    ActionCall { name: Seq<char>, guard: IRVarId, args: Seq<IRVarId>, fallbacks: Seq<IRVarId>, output_tys: Seq<IRTypeId>, result_ty: IRTypeId },
    ActionOutput { call: IRVarId, idx: usize, ty: IRTypeId },
    ActionStore { name: Seq<char>, guard: IRVarId, args: Seq<IRVarId>, targets: Seq<ActionTarget> },
    Rng { name: Seq<char>, ty: IRTypeId },
}

impl View for Stmt {
    type V = StmtView;

    open spec fn view(&self) -> StmtView {
        match *self {
            Stmt::Const(a0, a1) => StmtView::Const(a0, a1),
            Stmt::StorageRead { storage, ty, addr } => StmtView::StorageRead { storage, ty, addr },
            Stmt::StorageWrite { storage, src, ty, addr } => StmtView::StorageWrite { storage, src, ty, addr },
            Stmt::Transmute { src, src_ty, dst_ty } => StmtView::Transmute { src, src_ty, dst_ty },
            Stmt::Poly { ty, coeffs, constant } => StmtView::Poly { ty, coeffs: coeffs@, constant },
            Stmt::Rol { src, ty, n } => StmtView::Rol { src, ty, n },
            Stmt::Ror { src, ty, n } => StmtView::Ror { src, ty, n },
            Stmt::Merge { parts, ty } => StmtView::Merge { parts: parts@, ty },
            Stmt::Splat { src, ty } => StmtView::Splat { src, ty },
            Stmt::Shuffle { result_bits, ty } => StmtView::Shuffle { result_bits: result_bits@, ty },
            Stmt::OracleCall { name, args, output_tys, result_ty } => StmtView::OracleCall { name: name@, args: args@, output_tys: output_tys@, result_ty },
            Stmt::OracleOutput { call, idx, ty } => StmtView::OracleOutput { call, idx, ty },
            Stmt::ActionCall { name, guard, args, fallbacks, output_tys, result_ty } => StmtView::ActionCall { name: name@, guard, args: args@, fallbacks: fallbacks@, output_tys: output_tys@, result_ty },
            Stmt::ActionOutput { call, idx, ty } => StmtView::ActionOutput { call, idx, ty },
            Stmt::ActionStore { name, guard, args, targets } => StmtView::ActionStore { name: name@, guard, args: args@, targets: targets@ },
            Stmt::Rng { name, ty } => StmtView::Rng { name: name@, ty },
        }
    }
}

/// Whether two lists of shuffled bits are equal.
fn bits_eq(a: &Vec<(u8, IRVarId)>, b: &Vec<(u8, IRVarId)>) -> (r: bool)
    ensures
        r == (a@ == b@),
{
    if a.len() != b.len() {
        return false;
    }
    let mut i: usize = 0;
    while i < a.len()
        invariant
            i <= a.len(),
            a.len() == b.len(),
            forall|j: int| 0 <= j < i ==> a@[j] == b@[j],
        decreases a.len() - i,
    {
        if a[i].0 != b[i].0 || a[i].1 != b[i].1 {
            assert(a@[i as int] != b@[i as int]);
            return false;
        }
        i += 1;
    }
    assert(a@ =~= b@);
    true
}

/// Whether two lists of stored cells are equal.
fn action_targets_eq(a: &Vec<ActionTarget>, b: &Vec<ActionTarget>) -> (r: bool)
    ensures
        r == (a@ == b@),
{
    if a.len() != b.len() {
        return false;
    }
    let mut i: usize = 0;
    while i < a.len()
        invariant
            i <= a.len(),
            a.len() == b.len(),
            forall|j: int| 0 <= j < i ==> a@[j] == b@[j],
        decreases a.len() - i,
    {
        if a[i] != b[i] {
            assert(a@[i as int] != b@[i as int]);
            return false;
        }
        i += 1;
    }
    assert(a@ =~= b@);
    true
}

/// A copy of a list of shuffled bits.
fn clone_bits(a: &Vec<(u8, IRVarId)>) -> (r: Vec<(u8, IRVarId)>)
    ensures
        r@ == a@,
{
    let mut out: Vec<(u8, IRVarId)> = Vec::new();
    let mut i: usize = 0;
    while i < a.len()
        invariant
            i <= a.len(),
            out@.len() == i,
            forall|j: int| 0 <= j < i ==> out@[j] == a@[j],
        decreases a.len() - i,
    {
        out.push((a[i].0, a[i].1));
        i += 1;
    }
    assert(out@ =~= a@);
    out
}

impl Clone for Stmt {
    fn clone(&self) -> (r: Self)
        ensures
            r@ == self@,
    {
        match self {
            Stmt::Const(a0, a1) => Stmt::Const(*a0, *a1),
            Stmt::StorageRead { storage, ty, addr } => Stmt::StorageRead { storage: *storage, ty: *ty, addr: *addr },
            Stmt::StorageWrite { storage, src, ty, addr } => Stmt::StorageWrite { storage: *storage, src: *src, ty: *ty, addr: *addr },
            Stmt::Transmute { src, src_ty, dst_ty } => Stmt::Transmute { src: *src, src_ty: *src_ty, dst_ty: *dst_ty },
            Stmt::Poly { ty, coeffs, constant } => Stmt::Poly { ty: *ty, coeffs: coeffs.clone(), constant: *constant },
            Stmt::Rol { src, ty, n } => Stmt::Rol { src: *src, ty: *ty, n: *n },
            Stmt::Ror { src, ty, n } => Stmt::Ror { src: *src, ty: *ty, n: *n },
            Stmt::Merge { parts, ty } => Stmt::Merge { parts: parts.clone(), ty: *ty },
            Stmt::Splat { src, ty } => Stmt::Splat { src: *src, ty: *ty },
            Stmt::Shuffle { result_bits, ty } => Stmt::Shuffle { result_bits: clone_bits(result_bits), ty: *ty },
            Stmt::OracleCall { name, args, output_tys, result_ty } => Stmt::OracleCall { name: name.clone(), args: args.clone(), output_tys: output_tys.clone(), result_ty: *result_ty },
            Stmt::OracleOutput { call, idx, ty } => Stmt::OracleOutput { call: *call, idx: *idx, ty: *ty },
            Stmt::ActionCall { name, guard, args, fallbacks, output_tys, result_ty } => Stmt::ActionCall { name: name.clone(), guard: *guard, args: args.clone(), fallbacks: fallbacks.clone(), output_tys: output_tys.clone(), result_ty: *result_ty },
            Stmt::ActionOutput { call, idx, ty } => Stmt::ActionOutput { call: *call, idx: *idx, ty: *ty },
            Stmt::ActionStore { name, guard, args, targets } => Stmt::ActionStore { name: name.clone(), guard: *guard, args: args.clone(), targets: targets.clone() },
            Stmt::Rng { name, ty } => Stmt::Rng { name: name.clone(), ty: *ty },
        }
    }
}

impl Stmt {
    /// Whether two statements are the same.
    pub fn same(&self, other: &Stmt) -> (r: bool)
        ensures
            r == (self@ == other@),
    {
        match (self, other) {
            (Stmt::Const(a01, a11), Stmt::Const(a02, a12)) => *a01 == *a02 && *a11 == *a12,
            (Stmt::StorageRead { storage: storage1, ty: ty1, addr: addr1 }, Stmt::StorageRead { storage: storage2, ty: ty2, addr: addr2 }) => *storage1 == *storage2 && *ty1 == *ty2 && *addr1 == *addr2,
            (Stmt::StorageWrite { storage: storage1, src: src1, ty: ty1, addr: addr1 }, Stmt::StorageWrite { storage: storage2, src: src2, ty: ty2, addr: addr2 }) => *storage1 == *storage2 && *src1 == *src2 && *ty1 == *ty2 && *addr1 == *addr2,
            (Stmt::Transmute { src: src1, src_ty: src_ty1, dst_ty: dst_ty1 }, Stmt::Transmute { src: src2, src_ty: src_ty2, dst_ty: dst_ty2 }) => *src1 == *src2 && *src_ty1 == *src_ty2 && *dst_ty1 == *dst_ty2,
            (Stmt::Poly { ty: ty1, coeffs: coeffs1, constant: constant1 }, Stmt::Poly { ty: ty2, coeffs: coeffs2, constant: constant2 }) => *ty1 == *ty2 && coeffs1.same(coeffs2) && *constant1 == *constant2,
            (Stmt::Rol { src: src1, ty: ty1, n: n1 }, Stmt::Rol { src: src2, ty: ty2, n: n2 }) => *src1 == *src2 && *ty1 == *ty2 && *n1 == *n2,
            (Stmt::Ror { src: src1, ty: ty1, n: n1 }, Stmt::Ror { src: src2, ty: ty2, n: n2 }) => *src1 == *src2 && *ty1 == *ty2 && *n1 == *n2,
            (Stmt::Merge { parts: parts1, ty: ty1 }, Stmt::Merge { parts: parts2, ty: ty2 }) => vars_eq(parts1, parts2) && *ty1 == *ty2,
            (Stmt::Splat { src: src1, ty: ty1 }, Stmt::Splat { src: src2, ty: ty2 }) => *src1 == *src2 && *ty1 == *ty2,
            (Stmt::Shuffle { result_bits: result_bits1, ty: ty1 }, Stmt::Shuffle { result_bits: result_bits2, ty: ty2 }) => bits_eq(result_bits1, result_bits2) && *ty1 == *ty2,
            (Stmt::OracleCall { name: name1, args: args1, output_tys: output_tys1, result_ty: result_ty1 }, Stmt::OracleCall { name: name2, args: args2, output_tys: output_tys2, result_ty: result_ty2 }) => *name1 == *name2 && vars_eq(args1, args2) && type_ids_eq(output_tys1, output_tys2) && *result_ty1 == *result_ty2,
            (Stmt::OracleOutput { call: call1, idx: idx1, ty: ty1 }, Stmt::OracleOutput { call: call2, idx: idx2, ty: ty2 }) => *call1 == *call2 && *idx1 == *idx2 && *ty1 == *ty2,
            (Stmt::ActionCall { name: name1, guard: guard1, args: args1, fallbacks: fallbacks1, output_tys: output_tys1, result_ty: result_ty1 }, Stmt::ActionCall { name: name2, guard: guard2, args: args2, fallbacks: fallbacks2, output_tys: output_tys2, result_ty: result_ty2 }) => *name1 == *name2 && *guard1 == *guard2 && vars_eq(args1, args2) && vars_eq(fallbacks1, fallbacks2) && type_ids_eq(output_tys1, output_tys2) && *result_ty1 == *result_ty2,
            (Stmt::ActionOutput { call: call1, idx: idx1, ty: ty1 }, Stmt::ActionOutput { call: call2, idx: idx2, ty: ty2 }) => *call1 == *call2 && *idx1 == *idx2 && *ty1 == *ty2,
            (Stmt::ActionStore { name: name1, guard: guard1, args: args1, targets: targets1 }, Stmt::ActionStore { name: name2, guard: guard2, args: args2, targets: targets2 }) => *name1 == *name2 && *guard1 == *guard2 && vars_eq(args1, args2) && action_targets_eq(targets1, targets2),
            (Stmt::Rng { name: name1, ty: ty1 }, Stmt::Rng { name: name2, ty: ty2 }) => *name1 == *name2 && *ty1 == *ty2,
            _ => false,
        }
    }
}

/// The type of the value that a statement defines, if it defines one.
pub open spec fn output_type(s: StmtView) -> Option<IRTypeId> {
    match s {
        StmtView::Const(_, ty) => Some(ty),
        StmtView::StorageRead { ty, .. } => Some(ty),
        StmtView::StorageWrite { .. } => None,
        StmtView::Transmute { dst_ty, .. } => Some(dst_ty),
        StmtView::Poly { ty, .. } => Some(ty),
        StmtView::Rol { ty, .. } => Some(ty),
        StmtView::Ror { ty, .. } => Some(ty),
        StmtView::Merge { ty, .. } => Some(ty),
        StmtView::Splat { ty, .. } => Some(ty),
        StmtView::Shuffle { ty, .. } => Some(ty),
        StmtView::OracleCall { result_ty, .. } => Some(result_ty),
        StmtView::OracleOutput { ty, .. } => Some(ty),
        StmtView::ActionCall { result_ty, .. } => Some(result_ty),
        StmtView::ActionOutput { ty, .. } => Some(ty),
        StmtView::ActionStore { .. } => None,
        StmtView::Rng { ty, .. } => Some(ty),
    }
}

/// The type of the value that a statement defines, if it defines one.
pub fn stmt_output_type(s: &Stmt) -> (r: Option<IRTypeId>)
    ensures
        r == output_type(s@),
{
    match s {
        Stmt::Const(_, ty) => Some(*ty),
        Stmt::StorageRead { ty, .. } => Some(*ty),
        Stmt::StorageWrite { .. } => None,
        Stmt::Transmute { dst_ty, .. } => Some(*dst_ty),
        Stmt::Poly { ty, .. } => Some(*ty),
        Stmt::Rol { ty, .. } => Some(*ty),
        Stmt::Ror { ty, .. } => Some(*ty),
        Stmt::Merge { ty, .. } => Some(*ty),
        Stmt::Splat { ty, .. } => Some(*ty),
        Stmt::Shuffle { ty, .. } => Some(*ty),
        Stmt::OracleCall { result_ty, .. } => Some(*result_ty),
        Stmt::OracleOutput { ty, .. } => Some(*ty),
        Stmt::ActionCall { result_ty, .. } => Some(*result_ty),
        Stmt::ActionOutput { ty, .. } => Some(*ty),
        Stmt::ActionStore { .. } => None,
        Stmt::Rng { ty, .. } => Some(*ty),
    }
}

// ---------------------------------------------------------------------------
// Control flow
// ---------------------------------------------------------------------------

/// Where a jump goes.
#[derive(PartialEq, Eq, PartialOrd, Ord, Hash, Debug)]
pub enum IRBlockTargetId<Var = IRVarId> {
    Block(IRBlockId),
    Return,
    Dyn(Var),
}

impl<Var: Copy> Clone for IRBlockTargetId<Var> {
    fn clone(&self) -> (r: Self)
        ensures
            r == *self,
    {
        match self {
            IRBlockTargetId::Block(b) => IRBlockTargetId::Block(*b),
            IRBlockTargetId::Return => IRBlockTargetId::Return,
            IRBlockTargetId::Dyn(v) => IRBlockTargetId::Dyn(*v),
        }
    }
}

impl<Var: Copy> Copy for IRBlockTargetId<Var> {

}

impl IRBlockTargetId {
    /// Whether two destinations are the same.
    pub fn same(&self, other: &IRBlockTargetId) -> (r: bool)
        ensures
            r == (*self == *other),
    {
        match (self, other) {
            (IRBlockTargetId::Block(a), IRBlockTargetId::Block(b)) => *a == *b,
            (IRBlockTargetId::Return, IRBlockTargetId::Return) => true,
            (IRBlockTargetId::Dyn(a), IRBlockTargetId::Dyn(b)) => *a == *b,
            _ => false,
        }
    }
}

/// A jump destination with its arguments and an optional termination hint.
#[derive(PartialEq, Eq, PartialOrd, Ord, Hash, Debug)]
pub struct IRBranchTarget<Var = IRVarId> {
    pub dest: IRBlockTargetId<Var>,
    pub args: Vec<Var>,
    pub reentry: Option<ReentryHint>,
}

/// What an [`IRBranchTarget`] denotes.
#[verifier::ext_equal]
pub struct BranchView<Var = IRVarId> {
    pub dest: IRBlockTargetId<Var>,
    pub args: Seq<Var>,
    pub reentry: Option<Seq<MeasureSpec>>,
}

/// What an optional hint denotes.
pub open spec fn hint_view(h: Option<ReentryHint>) -> Option<Seq<MeasureSpec>> {
    match h {
        Some(h) => Some(h@),
        None => None,
    }
}

impl<Var> View for IRBranchTarget<Var> {
    type V = BranchView<Var>;

    open spec fn view(&self) -> BranchView<Var> {
        BranchView { dest: self.dest, args: self.args@, reentry: hint_view(self.reentry) }
    }
}

/// A branch without a hint.
pub open spec fn branch_to<Var>(dest: IRBlockTargetId<Var>, args: Seq<Var>) -> BranchView<Var> {
    BranchView { dest, args, reentry: None }
}

/// A copy of an optional hint.
pub fn clone_hint(h: &Option<ReentryHint>) -> (r: Option<ReentryHint>)
    ensures
        hint_view(r) == hint_view(*h),
{
    match h {
        Some(h) => Some(h.clone()),
        None => None,
    }
}

impl<Var> IRBranchTarget<Var> {
    /// A branch without a hint.
    pub fn new(dest: IRBlockTargetId<Var>, args: Vec<Var>) -> (r: Self)
        ensures
            r@ == branch_to(dest, args@),
    {
        IRBranchTarget { dest, args, reentry: None }
    }
}

impl Clone for IRBranchTarget {
    fn clone(&self) -> (r: Self)
        ensures
            r@ == self@,
    {
        IRBranchTarget {
            dest: self.dest,
            args: self.args.clone(),
            reentry: clone_hint(&self.reentry),
        }
    }
}

impl IRBranchTarget {
    /// Whether two branches are the same.
    pub fn same(&self, other: &IRBranchTarget) -> (r: bool)
        ensures
            r == (self@ == other@),
    {
        let hints = match (&self.reentry, &other.reentry) {
            (Some(a), Some(b)) => a.same(b),
            (None, None) => true,
            _ => false,
        };
        hints && self.dest.same(&other.dest) && vars_eq(&self.args, &other.args)
    }
}

/// How a block ends.
#[derive(PartialEq, Eq, PartialOrd, Ord, Hash, Debug)]
pub enum IRTerminator<Var = IRVarId> {
    Jmp { target: IRBranchTarget<Var> },
    JumpCond {
        condition: Var,
        then_target: IRBranchTarget<Var>,
        else_target: IRBranchTarget<Var>,
    },
    /// The cases are in order of their constants.
    JumpTable { index: Var, cases: Vec<(Constant, IRBranchTarget<Var>)> },
}

/// What an [`IRTerminator`] denotes.
#[verifier::ext_equal]
pub enum TermView<Var = IRVarId> {
    Jmp { target: BranchView<Var> },
    JumpCond { condition: Var, then_target: BranchView<Var>, else_target: BranchView<Var> },
    JumpTable { index: Var, cases: Seq<(Constant, BranchView<Var>)> },
}

/// The views of the cases of a jump table.
pub open spec fn case_views<Var>(s: Seq<(Constant, IRBranchTarget<Var>)>) -> Seq<
    (Constant, BranchView<Var>),
> {
    s.map_values(|c: (Constant, IRBranchTarget<Var>)| (c.0, c.1@))
}

impl<Var> View for IRTerminator<Var> {
    type V = TermView<Var>;

    open spec fn view(&self) -> TermView<Var> {
        match *self {
            IRTerminator::Jmp { target } => TermView::Jmp { target: target@ },
            IRTerminator::JumpCond { condition, then_target, else_target } => TermView::JumpCond {
                condition,
                then_target: then_target@,
                else_target: else_target@,
            },
            IRTerminator::JumpTable { index, cases } => TermView::JumpTable {
                index,
                cases: case_views(cases@),
            },
        }
    }
}

/// The order of the cases of a jump table.
pub open spec fn constant_order() -> spec_fn(Constant, Constant) -> bool {
    |a: Constant, b: Constant| a.less(b)
}

/// Constants are totally ordered.
pub proof fn lemma_constant_order()
    ensures
        strict_order(constant_order()),
{
}

/// Bind the case `key` of a jump table to `target`.
pub fn insert_case(
    cases: &mut Vec<(Constant, IRBranchTarget)>,
    key: Constant,
    target: IRBranchTarget,
)
    ensures
        case_views(final(cases)@) == assoc_insert(
            case_views(old(cases)@),
            key,
            target@,
            constant_order(),
        ),
{
    let ghost s = case_views(cases@);
    let mut i: usize = 0;
    while i < cases.len() && cases[i].0.is_less(&key)
        invariant
            i <= cases.len(),
            s == case_views(cases@),
            cases == old(cases),
            forall|j: int| 0 <= j < i ==> (#[trigger] s[j]).0.less(key),
        decreases cases.len() - i,
    {
        i += 1;
    }
    proof {
        lemma_constant_order();
        lemma_assoc_insert_at(s, key, target@, constant_order(), i as int);
        if i < s.len() {
            assert(s.skip(i as int)[0] == s[i as int]);
        }
    }
    let ghost t = target@;
    let ghost rest = s.skip(i as int);
    if i < cases.len() && cases[i].0 == key {
        cases.set(i, (key, target));
        assert(case_views(cases@) =~= s.take(i as int) + (seq![(key, t)] + rest.drop_first()));
    } else {
        cases.insert(i, (key, target));
        proof {
            if i < s.len() {
                assert(assoc_insert(rest, key, t, constant_order()) == seq![(key, t)] + rest);
            } else {
                assert(assoc_insert(rest, key, t, constant_order()) == seq![(key, t)]);
            }
            assert(case_views(cases@) =~= s.take(i as int) + assoc_insert(
                rest,
                key,
                t,
                constant_order(),
            ));
        }
    }
}

impl Clone for IRTerminator {
    fn clone(&self) -> (r: Self)
        ensures
            r@ == self@,
    {
        match self {
            IRTerminator::Jmp { target } => IRTerminator::Jmp { target: target.clone() },
            IRTerminator::JumpCond { condition, then_target, else_target } =>
            IRTerminator::JumpCond {
                condition: *condition,
                then_target: then_target.clone(),
                else_target: else_target.clone(),
            },
            IRTerminator::JumpTable { index, cases } => {
                let mut out: Vec<(Constant, IRBranchTarget)> = Vec::new();
                let mut i: usize = 0;
                while i < cases.len()
                    invariant
                        i <= cases.len(),
                        out@.len() == i,
                        forall|j: int|
                            0 <= j < i ==> (#[trigger] out@[j]).0 == cases@[j].0 && out@[j].1@
                                == cases@[j].1@,
                    decreases cases.len() - i,
                {
                    out.push((cases[i].0, cases[i].1.clone()));
                    i += 1;
                }
                assert(case_views(out@) =~= case_views(cases@));
                IRTerminator::JumpTable { index: *index, cases: out }
            },
        }
    }
}

impl IRTerminator {
    /// Whether two terminators are the same.
    pub fn same(&self, other: &IRTerminator) -> (r: bool)
        ensures
            r == (self@ == other@),
    {
        match (self, other) {
            (IRTerminator::Jmp { target: a }, IRTerminator::Jmp { target: b }) => a.same(b),
            (
                IRTerminator::JumpCond { condition: c1, then_target: t1, else_target: e1 },
                IRTerminator::JumpCond { condition: c2, then_target: t2, else_target: e2 },
            ) => *c1 == *c2 && t1.same(t2) && e1.same(e2),
            (
                IRTerminator::JumpTable { index: i1, cases: c1 },
                IRTerminator::JumpTable { index: i2, cases: c2 },
            ) => {
                if *i1 != *i2 {
                    return false;
                }
                if c1.len() != c2.len() {
                    assert(case_views(c1@).len() != case_views(c2@).len());
                    return false;
                }
                let mut i: usize = 0;
                while i < c1.len()
                    invariant
                        i <= c1.len(),
                        c1.len() == c2.len(),
                        self@ == (TermView::JumpTable { index: *i1, cases: case_views(c1@) }),
                        other@ == (TermView::JumpTable { index: *i2, cases: case_views(c2@) }),
                        forall|j: int| 0 <= j < i ==> case_views(c1@)[j] == case_views(c2@)[j],
                    decreases c1.len() - i,
                {
                    if c1[i].0 != c2[i].0 || !c1[i].1.same(&c2[i].1) {
                        assert(case_views(c1@)[i as int] != case_views(c2@)[i as int]);
                        return false;
                    }
                    i += 1;
                }
                assert(case_views(c1@) =~= case_views(c2@));
                true
            },
            _ => false,
        }
    }
}

// ---------------------------------------------------------------------------
// Blocks and modules
// ---------------------------------------------------------------------------

/// A block: parameters, statements, and how it ends.
#[derive(PartialEq, Eq, PartialOrd, Ord, Hash, Debug)]
pub struct IRBlock<P = ()> {
    pub params: Vec<IRTypeId>,
    pub stmts: Vec<Node<IRStmt, P>>,
    pub terminator: IRTerminator,
}

/// What an [`IRBlock`] denotes, its annotations left aside.
#[verifier::ext_equal]
pub struct IRBlockView {
    pub params: Seq<IRTypeId>,
    pub stmts: Seq<StmtView>,
    pub terminator: TermView,
}

/// The statements of a list of nodes.
pub open spec fn node_kinds<P>(s: Seq<Node<IRStmt, P>>) -> Seq<StmtView> {
    s.map_values(|n: Node<IRStmt, P>| n.kind@)
}

impl<P> View for IRBlock<P> {
    type V = IRBlockView;

    open spec fn view(&self) -> IRBlockView {
        IRBlockView {
            params: self.params@,
            stmts: node_kinds(self.stmts@),
            terminator: self.terminator@,
        }
    }
}

impl IRBlockView {
    /// The number of variables of the block.
    pub open spec fn var_space(self) -> nat {
        self.params.len() + self.stmts.len()
    }
}

/// A module: declarations, blocks and initial storage. Block 0 is the entry.
#[derive(PartialEq, Eq, PartialOrd, Ord, Hash, Debug)]
pub struct IRBlocks<P = ()> {
    pub oracles: Vec<OracleDecl>,
    pub actions: Vec<ActionDecl>,
    pub rngs: Vec<RngDecl>,
    pub blocks: Vec<IRBlock<P>>,
    pub pre_init: Vec<PreInitSegment>,
}

/// What an [`IRBlocks`] denotes, its annotations left aside.
#[verifier::ext_equal]
pub struct IRBlocksView {
    pub oracles: Seq<CallDeclView>,
    pub actions: Seq<CallDeclView>,
    pub rngs: Seq<RngDeclView>,
    pub blocks: Seq<IRBlockView>,
    pub pre_init: Seq<PreInitView>,
}

/// The views of a list of blocks.
pub open spec fn block_views<P>(s: Seq<IRBlock<P>>) -> Seq<IRBlockView> {
    s.map_values(|b: IRBlock<P>| b@)
}

impl<P> View for IRBlocks<P> {
    type V = IRBlocksView;

    open spec fn view(&self) -> IRBlocksView {
        IRBlocksView {
            oracles: oracle_views(self.oracles@),
            actions: action_views(self.actions@),
            rngs: rng_views(self.rngs@),
            blocks: block_views(self.blocks@),
            pre_init: pre_init_views(self.pre_init@),
        }
    }
}

/// Whether a block only returns.
pub open spec fn returns_only(t: TermView) -> bool {
    t matches TermView::Jmp { target } && target.dest is Return
}

impl<P> IRBlocks<P> {
    /// A module without declarations or initial storage.
    pub fn new(blocks: Vec<IRBlock<P>>) -> (r: Self)
        ensures
            r.blocks@ == blocks@,
            r.oracles@.len() == 0,
            r.actions@.len() == 0,
            r.rngs@.len() == 0,
            r.pre_init@.len() == 0,
    {
        IRBlocks {
            oracles: Vec::new(),
            actions: Vec::new(),
            rngs: Vec::new(),
            blocks,
            pre_init: Vec::new(),
        }
    }

    /// Whether the module has exactly one block.
    pub fn is_movfuscated(&self) -> (r: bool)
        ensures
            r == (self@.blocks.len() == 1),
    {
        self.blocks.len() == 1
    }

    /// Whether the module is one block that only returns.
    pub fn is_circuit(&self) -> (r: bool)
        ensures
            r == (self@.blocks.len() == 1 && returns_only(self@.blocks[0].terminator)),
    {
        self.is_movfuscated() && match &self.blocks[0].terminator {
            IRTerminator::Jmp { target } => match target.dest {
                IRBlockTargetId::Return => true,
                _ => false,
            },
            _ => false,
        }
    }

    /// The module with every provenance annotation translated by `handler`, which
    /// is asked for one statement after the other, from the first to the last.
    pub fn map_prov_with_handler<H: ProvenanceHandler<P>>(
        self,
        handler: &H,
    ) -> (r: IRBlocks<H::Output>)
        requires
            forall|p: &P| call_requires(H::map, (handler, p)),
        ensures
            r.oracles == self.oracles,
            r.actions == self.actions,
            r.rngs == self.rngs,
            r.pre_init == self.pre_init,
            r.blocks@.len() == self.blocks@.len(),
            forall|i: int|
                0 <= i < r.blocks@.len() ==> block_prov_mapped(
                    handler,
                    self.blocks@[i],
                    #[trigger] r.blocks@[i],
                ),
    {
        let ghost all = self.blocks@;
        let mut rest = turned(self.blocks);
        let mut blocks: Vec<IRBlock<H::Output>> = Vec::new();
        while rest.len() > 0
            invariant
                forall|p: &P| call_requires(H::map, (handler, p)),
                rest@.len() + blocks@.len() == all.len(),
                forall|i: int|
                    0 <= i < rest@.len() ==> #[trigger] rest@[i] == all[all.len() - 1 - i],
                forall|i: int|
                    0 <= i < blocks@.len() ==> block_prov_mapped(
                        handler,
                        all[i],
                        #[trigger] blocks@[i],
                    ),
            decreases rest@.len(),
        {
            assert(rest@[rest@.len() - 1] == all[blocks@.len() as int]);
            let block = rest.pop().unwrap();
            assert(block == all[blocks@.len() as int]);
            blocks.push(block.map_prov_with_handler(handler));
        }
        IRBlocks {
            oracles: self.oracles,
            actions: self.actions,
            rngs: self.rngs,
            blocks,
            pre_init: self.pre_init,
        }
    }
}

/// Whether `to` is `from` with every provenance annotation translated by
/// `handler` and nothing else changed.
pub open spec fn block_prov_mapped<P, H: ProvenanceHandler<P>>(
    handler: &H,
    from: IRBlock<P>,
    to: IRBlock<H::Output>,
) -> bool {
    &&& to.params == from.params
    &&& to.terminator == from.terminator
    &&& to.stmts@.len() == from.stmts@.len()
    &&& forall|i: int|
        0 <= i < to.stmts@.len() ==> prov_mapped(handler, from.stmts@[i], #[trigger] to.stmts@[i])
}

impl<P> IRBlock<P> {
    /// Append a statement without a side. The result is its variable.
    pub fn push_stmt(&mut self, stmt: IRStmt, prov: P) -> (id: IRVarId)
        requires
            old(self).params@.len() + old(self).stmts@.len() <= u32::MAX,
        ensures
            id.0 == old(self).params@.len() + old(self).stmts@.len(),
            final(self).params == old(self).params,
            final(self).terminator == old(self).terminator,
            final(self).stmts@ == old(self).stmts@.push(Node { kind: stmt, prov, side: None }),
    {
        self.push_stmt_with_side(stmt, prov, None)
    }

    /// Append a statement. The result is its variable.
    pub fn push_stmt_with_side(&mut self, stmt: IRStmt, prov: P, side: Option<SideId>) -> (id:
        IRVarId)
        requires
            old(self).params@.len() + old(self).stmts@.len() <= u32::MAX,
        ensures
            id.0 == old(self).params@.len() + old(self).stmts@.len(),
            final(self).params == old(self).params,
            final(self).terminator == old(self).terminator,
            final(self).stmts@ == old(self).stmts@.push(Node { kind: stmt, prov, side }),
    {
        let id = IRVarId(self.params.len() as u32 + self.stmts.len() as u32);
        self.stmts.push(Node::new(stmt, prov, side));
        id
    }

    /// The block with every provenance annotation translated by `handler`.
    pub fn map_prov_with_handler<H: ProvenanceHandler<P>>(
        self,
        handler: &H,
    ) -> (r: IRBlock<H::Output>)
        requires
            forall|p: &P| call_requires(H::map, (handler, p)),
        ensures
            block_prov_mapped(handler, self, r),
    {
        IRBlock {
            params: self.params,
            stmts: map_prov_nodes(self.stmts, handler),
            terminator: self.terminator,
        }
    }
}

/// A copy of a list of initial segments.
pub fn clone_pre_init(s: &Vec<PreInitSegment>) -> (r: Vec<PreInitSegment>)
    ensures
        pre_init_views(r@) == pre_init_views(s@),
{
    let mut out: Vec<PreInitSegment> = Vec::new();
    let mut i: usize = 0;
    while i < s.len()
        invariant
            i <= s.len(),
            out@.len() == i,
            forall|j: int| 0 <= j < i ==> (#[trigger] out@[j])@ == s@[j]@,
        decreases s.len() - i,
    {
        out.push(s[i].clone());
        i += 1;
    }
    assert(pre_init_views(out@) =~= pre_init_views(s@));
    out
}

} // verus!
