//! A small hash: fold words together by exclusive or and rotate.

use vstd::prelude::*;

use crate::common::{type_views, Constant, IrType, IrTypeView, OracleDecl, Type, TypeTable};
use crate::ir::{IRTypeId, IRVarId, Stmt, StmtView};
use crate::virt::canon::zero_constant;
use crate::virt::emit::{xor_coeffs, xor_terms};
use crate::virt::hash::{
    from_le_bytes, le_bytes, le_value, min_len, to_le_bytes, word_views, EmitterView, IrEmitter,
    IrHashAlgorithm,
};

verus! {

/// A hash of 32 bits that folds each word into the state by exclusive or and
/// rotates the state. It has no key.
#[derive(Clone, Copy, PartialEq, Eq, Debug, Structural)]
pub struct XorFoldHash32 {
    pub seed: u32,
}

impl Default for XorFoldHash32 {
    fn default() -> (r: Self)
        ensures
            r.seed == 0xDEAD_BEEF,
    {
        XorFoldHash32 { seed: 0xDEAD_BEEF }
    }
}

/// The first four bytes of a word as a number.
pub open spec fn word32(w: Seq<u8>) -> u32 {
    le_value(w.take(min_len(w.len() as int, 4))) as u32
}

/// The state rotated left by 13 bits.
pub open spec fn rol13(h: u32) -> u32 {
    (h << 13) | (h >> 19)
}

/// The state after some words.
pub open spec fn xor_fold(seed: u32, words: Seq<Seq<u8>>) -> u32
    decreases words.len(),
{
    if words.len() == 0 {
        seed
    } else {
        rol13(xor_fold(seed, words.drop_last()) ^ word32(words.last()))
    }
}

/// The type of words of 32 bits.
pub open spec fn u32_view() -> IrTypeView {
    IrTypeView::Primitive(Type::_32)
}

/// The block with the statements that take `w` into the state `h`.
pub open spec fn fold_step(
    e: EmitterView,
    h: IRVarId,
    w: (IRVarId, IRTypeId),
    ty: IRTypeId,
) -> (EmitterView, IRVarId) {
    let (e1, v) = if w.1 == ty {
        (e, w.0)
    } else {
        (e.push(StmtView::Transmute { src: w.0, src_ty: w.1, dst_ty: ty }), e.next())
    };
    let e2 = e1.push(
        StmtView::Poly { ty, coeffs: xor_terms(h, v), constant: zero_constant() },
    );
    (e2.push(StmtView::Rol { src: e1.next(), ty, n: 13 }), e2.next())
}

/// The block with the statements that take some words into the state.
pub open spec fn fold_steps(
    e: EmitterView,
    h: IRVarId,
    words: Seq<(IRVarId, IRTypeId)>,
    ty: IRTypeId,
) -> (EmitterView, IRVarId)
    decreases words.len(),
{
    if words.len() == 0 {
        (e, h)
    } else {
        let (e1, h1) = fold_steps(e, h, words.drop_last(), ty);
        fold_step(e1, h1, words.last(), ty)
    }
}

impl IrHashAlgorithm for XorFoldHash32 {
    open spec fn key_types(&self) -> Seq<IrTypeView> {
        Seq::empty()
    }

    open spec fn output_type(&self) -> IrTypeView {
        u32_view()
    }

    open spec fn label(&self) -> Seq<char> {
        "xorfold32"@
    }

    open spec fn digest(&self, key: Seq<Seq<u8>>, words: Seq<Seq<u8>>) -> Seq<u8> {
        le_bytes(xor_fold(self.seed, words) as nat, 4)
    }

    open spec fn emission(
        &self,
        e: EmitterView,
        key: Seq<(IRVarId, IRTypeId)>,
        words: Seq<(IRVarId, IRTypeId)>,
    ) -> (EmitterView, IRVarId) {
        let ty = e.type_id(u32_view());
        let e1 = e.with_type(u32_view());
        let e2 = e1.push(StmtView::Const(Constant { hi: 0, lo: self.seed as u128 }, ty));
        fold_steps(e2, e1.next(), words, ty)
    }

    open spec fn emission_room(&self, n: nat) -> nat {
        1 + 3 * n
    }

    fn emit_ir<E: IrEmitter>(
        &self,
        emitter: &mut E,
        key_vars: &Vec<(IRVarId, IRTypeId)>,
        inputs: &Vec<(IRVarId, IRTypeId)>,
    ) -> (r: IRVarId) {
        let ghost e0 = emitter.state();
        let ty: IRTypeId = emitter.intern_type(IrType::Primitive(Type::_32));
        let mut h: IRVarId = emitter.emit(
            Stmt::Const(Constant { hi: 0, lo: self.seed as u128 }, ty),
        );
        let ghost e2 = emitter.state();
        let ghost h0 = h;
        let mut i: usize = 0;
        assert(inputs@.take(0) =~= Seq::empty());
        while i < inputs.len()
            invariant
                i <= inputs.len(),
                e0.has_room(1 + 3 * inputs@.len()),
                e2.block.var_space() == e0.block.var_space() + 1,
                e2.types.len() <= e0.types.len() + 1,
                e0.types.len() <= e2.types.len(),
                e2.block.params == e0.block.params,
                e2.block.terminator == e0.block.terminator,
                e2.addr_ty == e0.addr_ty,
                e2.bit_ty == e0.bit_ty,
                (emitter.state(), h) == fold_steps(e2, h0, inputs@.take(i as int), ty),
                emitter.state().block.var_space() <= e2.block.var_space() + 3 * i,
                emitter.state().types == e2.types,
                emitter.state().block.params == e2.block.params,
                emitter.state().block.terminator == e2.block.terminator,
                emitter.state().addr_ty == e2.addr_ty,
                emitter.state().bit_ty == e2.bit_ty,
            decreases inputs.len() - i,
        {
            proof {
                assert(inputs@.take(i + 1).drop_last() =~= inputs@.take(i as int));
                assert(inputs@.take(i + 1).last() == inputs@[i as int]);
            }
            let (var, src_ty) = inputs[i];
            let w: IRVarId = if src_ty == ty {
                var
            } else {
                emitter.emit(Stmt::Transmute { src: var, src_ty, dst_ty: ty })
            };
            let x: IRVarId = emitter.emit(
                Stmt::Poly { ty, coeffs: xor_coeffs(h, w), constant: Constant { hi: 0, lo: 0 } },
            );
            h = emitter.emit(Stmt::Rol { src: x, ty, n: 13 });
            i += 1;
        }
        assert(inputs@.take(i as int) =~= inputs@);
        h
    }

    fn output_type_id(&self, types: &mut TypeTable) -> (r: IRTypeId) {
        types.intern(IrType::Primitive(Type::_32))
    }

    fn hash_bytes_native(&self, key_words: &Vec<Vec<u8>>, inputs: &Vec<Vec<u8>>) -> (r: Vec<u8>) {
        let ghost words = word_views(inputs@);
        let mut h: u32 = self.seed;
        let mut i: usize = 0;
        assert(words.take(0) =~= Seq::empty());
        while i < inputs.len()
            invariant
                i <= inputs.len(),
                words == word_views(inputs@),
                h == xor_fold(self.seed, words.take(i as int)),
            decreases inputs.len() - i,
        {
            proof {
                assert(words.take(i + 1).drop_last() =~= words.take(i as int));
                assert(words.take(i + 1).last() == inputs@[i as int]@);
                assert(inputs@[i as int]@.skip(0) =~= inputs@[i as int]@);
            }
            let w: u32 = from_le_bytes(&inputs[i], 0, 4) as u32;
            let x: u32 = h ^ w;
            h = (x << 13) | (x >> 19);
            i += 1;
        }
        assert(words.take(i as int) =~= words);
        to_le_bytes(h as u128, 4)
    }

    fn key_schema(&self) -> (r: Vec<IrType>) {
        let r: Vec<IrType> = Vec::new();
        assert(type_views(r@) =~= Seq::empty());
        r
    }

    fn name(&self) -> (r: &str) {
        "xorfold32"
    }

    fn internal_oracle_decls(&self, types: &mut TypeTable) -> (r: Vec<OracleDecl>) {
        Vec::new()
    }
}

} // verus!
