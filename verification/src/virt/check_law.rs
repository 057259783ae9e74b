//! What the checks of committed rows find out.

use vstd::prelude::*;

use crate::common::{Constant, IrTypeView, StorageId};
use crate::ir::{IRTypeId, IRVarId, StmtView};
use crate::virt::canon::zero_constant;
use crate::virt::emit::{pc_var, xor_terms};
use crate::virt::handler::{check_row, key_reads, slot_reads, Check, Frame};
use crate::virt::hash::{
    constant_bytes, constant_of_bytes, le_value, EmitterView, IrHashAlgorithm,
};
use crate::virt::hash_law::{
    computes32, computes64, extended, holds32, holds64, law_sip_statements, law_xor_fold_statements,
    lemma_emitted, lemma_kept, lemma_twice, num, only_adds, ran,
};
use crate::virt::hash_sip::{
    absorb_ir, bits_of, block_ir, compress_ir, finish_ir, init_ir, ripple, rotated, round_ir,
    rounds_ir, sum64, sum_of, sum_with, u64_view, word64, SipHash48, SipVars,
};
use crate::virt::hash_xor::{fold_steps, u32_view, XorFoldHash32};
use crate::virt::ir_run::{adds_up, at, lemma_run_length, lemma_xor, numbers, IrState, Machine};
use crate::virt::schema::{constant_of, HandlerSlot};

verus! {

/// Whether variables hold constants.
pub open spec fn hold_constants<V, W>(
    m: Machine<V, W>,
    e: EmitterView,
    vars: Seq<(IRVarId, IRTypeId)>,
    consts: Seq<Constant>,
    args: Seq<V>,
    st: IrState<V, W>,
) -> bool {
    &&& vars.len() == consts.len()
    &&& forall|i: int|
        0 <= i < vars.len() ==> (#[trigger] vars[i]).0.0 < e.block.var_space() && at(
            vars[i].0,
            ran(m, e, args, st).0,
        ) == (m.constant)(consts[i], vars[i].1)
}

/// The bytes of constants of the types of some variables.
pub open spec fn bytes_of(
    vars: Seq<(IRVarId, IRTypeId)>,
    consts: Seq<Constant>,
    types: Seq<IrTypeView>,
) -> Seq<Seq<u8>> {
    Seq::new(vars.len(), |i: int| constant_bytes(consts[i], types[vars[i].1.0 as int]))
}

/// Whether variables have given types.
pub open spec fn have_types(vars: Seq<(IRVarId, IRTypeId)>, tys: Seq<IRTypeId>) -> bool {
    &&& vars.len() == tys.len()
    &&& forall|i: int| 0 <= i < vars.len() ==> (#[trigger] vars[i]).1 == tys[i]
}

/// Whether the statements of a hash algorithm need no types but the given ones.
pub open spec fn adds_no_types<H: IrHashAlgorithm>(alg: H, types: Seq<IrTypeView>) -> bool {
    forall|e: EmitterView, key: Seq<(IRVarId, IRTypeId)>, words: Seq<(IRVarId, IRTypeId)>|
        e.types == types ==> (#[trigger] alg.emission(e, key, words)).0.types == types
}

/// Whether the statements of a hash algorithm compute its hash of constants,
/// under a key of words of the given types, and change nothing.
pub open spec fn computes_hash<V, W, H: IrHashAlgorithm>(
    m: Machine<V, W>,
    alg: H,
    types: Seq<IrTypeView>,
    bit_ty: IRTypeId,
    key_tys: Seq<IRTypeId>,
) -> bool {
    forall|
        e: EmitterView,
        key: Seq<(IRVarId, IRTypeId)>,
        words: Seq<(IRVarId, IRTypeId)>,
        key_consts: Seq<Constant>,
        consts: Seq<Constant>,
        args: Seq<V>,
        st: IrState<V, W>,
    |
        #![trigger hold_constants(m, e, key, key_consts, args, st), hold_constants(m, e, words, consts, args, st)]
        e.types == types && e.bit_ty == bit_ty && have_types(key, key_tys) && args.len()
            == e.block.params.len() && e.has_room(
            alg.emission_room(words.len()),
        ) && hold_constants(m, e, key, key_consts, args, st) && hold_constants(
            m,
            e,
            words,
            consts,
            args,
            st,
        ) ==> {
            let (e2, h) = alg.emission(e, key, words);
            &&& only_adds(m, e, e2, alg.emission_room(words.len()), args, st)
            &&& h.0 < e2.block.var_space()
            &&& num(m, e2, h, args, st) == le_value(
                alg.digest(bytes_of(key, key_consts, types), bytes_of(words, consts, types)),
            )
        }
}

/// Whether constants of every type, cut or widened to words of type `ty` of 32
/// bits, denote what their first bytes do.
pub open spec fn encodes32<V, W>(
    m: Machine<V, W>,
    ty: IRTypeId,
    types: Seq<IrTypeView>,
) -> bool {
    forall|c: Constant, t: IRTypeId| #[trigger]
        holds32(m, (m.constant)(c, t), t, ty, constant_bytes(c, types[t.0 as int]))
}

/// The same for words of 64 bits.
pub open spec fn encodes64<V, W>(
    m: Machine<V, W>,
    ty: IRTypeId,
    types: Seq<IrTypeView>,
) -> bool {
    forall|c: Constant, t: IRTypeId| #[trigger]
        holds64(m, (m.constant)(c, t), t, ty, constant_bytes(c, types[t.0 as int]))
}

/// The statements of the fold need no type but that of words of 32 bits.
pub proof fn law_xor_fold_adds_no_types(alg: XorFoldHash32, types: Seq<IrTypeView>)
    requires
        types.contains(u32_view()),
    ensures
        adds_no_types(alg, types),
{
    assert forall|e: EmitterView, key: Seq<(IRVarId, IRTypeId)>, words: Seq<(IRVarId, IRTypeId)>|
        e.types == types implies (#[trigger] alg.emission(e, key, words)).0.types == types by {
        let ty = e.type_id(u32_view());
        let e1 = e.with_type(u32_view());
        let e2 = e1.push(StmtView::Const(Constant { hi: 0, lo: alg.seed as u128 }, ty));
        lemma_fold_types(e2, e1.next(), words, ty);
    }
}

/// Folding leaves the types.
proof fn lemma_fold_types(
    e: EmitterView,
    h: IRVarId,
    words: Seq<(IRVarId, IRTypeId)>,
    ty: IRTypeId,
)
    ensures
        fold_steps(e, h, words, ty).0.types == e.types,
    decreases words.len(),
{
    if words.len() > 0 {
        lemma_fold_types(e, h, words.drop_last(), ty);
    }
}

/// The statements of the keyed hash need no type but that of words of 64 bits.
pub proof fn law_sip_adds_no_types(alg: SipHash48, types: Seq<IrTypeView>)
    requires
        types.contains(u64_view()),
    ensures
        adds_no_types(alg, types),
{
    assert forall|e: EmitterView, key: Seq<(IRVarId, IRTypeId)>, words: Seq<(IRVarId, IRTypeId)>|
        e.types == types implies (#[trigger] alg.emission(e, key, words)).0.types == types by {
        let ty = e.type_id(u64_view());
        let (e1, v) = init_ir(e.with_type(u64_view()), key[0].0, key[1].0, ty);
        let e0 = e1.push(StmtView::Const(zero_constant(), ty));
        lemma_compress_types(e0, v, e1.next(), ty);
        lemma_absorb_types(e1, v, words, words.len(), ty);
        let (e2, w) = if words.len() == 0 {
            compress_ir(e0, v, e1.next(), ty)
        } else {
            absorb_ir(e1, v, words, words.len(), ty)
        };
        lemma_finish_types(e2, w, ty);
    }
}

/// Taking bits leaves the types.
proof fn lemma_bits_types(e: EmitterView, a: IRVarId, n: nat)
    ensures
        bits_of(e, a, n).0.types == e.types,
    decreases n,
{
    if n > 0 {
        lemma_bits_types(e, a, (n - 1) as nat);
    }
}

/// Adding bits leaves the types.
proof fn lemma_ripple_types(
    e: EmitterView,
    a: Seq<IRVarId>,
    b: Seq<IRVarId>,
    carry: IRVarId,
    n: nat,
)
    ensures
        ripple(e, a, b, carry, n).0.types == e.types,
    decreases n,
{
    if n > 0 {
        lemma_ripple_types(e, a, b, carry, (n - 1) as nat);
    }
}

/// Adding words leaves the types.
proof fn lemma_sum64_types(e: EmitterView, a: IRVarId, b: IRVarId, ty: IRTypeId)
    ensures
        sum64(e, a, b, ty).0.types == e.types,
{
    let (e1, bits_a) = bits_of(e, a, 64);
    let (e2, bits_b) = bits_of(e1, b, 64);
    let e3 = e2.push(StmtView::Const(zero_constant(), e.bit_ty));
    lemma_bits_types(e, a, 64);
    lemma_bits_types(e1, b, 64);
    lemma_ripple_types(e3, bits_a, bits_b, e2.next(), 64);
}

/// Rounds leave the types.
proof fn lemma_rounds_types(e: EmitterView, v: SipVars, n: nat, ty: IRTypeId)
    ensures
        rounds_ir(e, v, n, ty).0.types == e.types,
    decreases n,
{
    if n > 0 {
        lemma_rounds_types(e, v, (n - 1) as nat, ty);
        let (a, v) = rounds_ir(e, v, (n - 1) as nat, ty);
        reveal(round_ir);
        let (e1, w1) = sum64(a, v.v0, v.v1, ty);
        lemma_sum64_types(a, v.v0, v.v1, ty);
        let (e2, w2) = rotated(e1, v.v1, 13, ty);
        let (e3, w3) = sum_of(e2, w2, w1, ty);
        let (e4, w4) = rotated(e3, w1, 32, ty);
        lemma_sum64_types(e4, v.v2, v.v3, ty);
        let (e5, w5) = sum64(e4, v.v2, v.v3, ty);
        let (e6, w6) = rotated(e5, v.v3, 16, ty);
        let (e7, w7) = sum_of(e6, w6, w5, ty);
        lemma_sum64_types(e7, w4, w7, ty);
        let (e8, w8) = sum64(e7, w4, w7, ty);
        let (e9, w9) = rotated(e8, w7, 21, ty);
        let (e10, w10) = sum_of(e9, w9, w8, ty);
        lemma_sum64_types(e10, w5, w3, ty);
    }
}

/// Taking in a word leaves the types.
proof fn lemma_compress_types(e: EmitterView, v: SipVars, x: IRVarId, ty: IRTypeId)
    ensures
        compress_ir(e, v, x, ty).0.types == e.types,
{
    reveal(compress_ir);
    let (e1, w3) = sum_of(e, v.v3, x, ty);
    lemma_rounds_types(e1, SipVars { v3: w3, ..v }, 4, ty);
}

/// Taking in words leaves the types.
proof fn lemma_absorb_types(
    e: EmitterView,
    v: SipVars,
    words: Seq<(IRVarId, IRTypeId)>,
    n: nat,
    ty: IRTypeId,
)
    ensures
        absorb_ir(e, v, words, n, ty).0.types == e.types,
    decreases n,
{
    if n > 0 {
        lemma_absorb_types(e, v, words, (n - 1) as nat, ty);
        let (e1, v1) = absorb_ir(e, v, words, (n - 1) as nat, ty);
        let (e2, x) = block_ir(e1, words, n - 1, ty);
        lemma_compress_types(e2, v1, x, ty);
    }
}

/// The end of the hash leaves the types.
proof fn lemma_finish_types(e: EmitterView, v: SipVars, ty: IRTypeId)
    ensures
        finish_ir(e, v, ty).0.types == e.types,
{
    reveal(finish_ir);
    let (e1, w2) = sum_with(e, v.v2, 0xff, ty);
    lemma_rounds_types(e1, SipVars { v2: w2, ..v }, 8, ty);
}

/// The statements of the fold compute its hash of constants.
pub proof fn law_xor_fold_computes<V, W>(
    m: Machine<V, W>,
    alg: XorFoldHash32,
    types: Seq<IrTypeView>,
    ty: IRTypeId,
    bit_ty: IRTypeId,
    key_tys: Seq<IRTypeId>,
)
    requires
        adds_up(m),
        ty.0 == crate::common::interned_index(types, u32_view()) as u32,
        computes32(m, ty),
        encodes32(m, ty, types),
    ensures
        computes_hash(m, alg, types, bit_ty, key_tys),
{
    assert forall|
        e: EmitterView,
        key: Seq<(IRVarId, IRTypeId)>,
        words: Seq<(IRVarId, IRTypeId)>,
        key_consts: Seq<Constant>,
        consts: Seq<Constant>,
        args: Seq<V>,
        st: IrState<V, W>,
    |
        #![trigger hold_constants(m, e, key, key_consts, args, st), hold_constants(m, e, words, consts, args, st)]
        e.types == types && e.bit_ty == bit_ty && have_types(key, key_tys) && args.len()
            == e.block.params.len() && e.has_room(
            alg.emission_room(words.len()),
        ) && hold_constants(m, e, key, key_consts, args, st) && hold_constants(
            m,
            e,
            words,
            consts,
            args,
            st,
        ) implies {
        let (e2, h) = alg.emission(e, key, words);
        &&& only_adds(m, e, e2, alg.emission_room(words.len()), args, st)
        &&& h.0 < e2.block.var_space()
        &&& num(m, e2, h, args, st) == le_value(
            alg.digest(bytes_of(key, key_consts, types), bytes_of(words, consts, types)),
        )
    } by {
        let data = bytes_of(words, consts, types);
        assert(e.type_id(u32_view()) == ty);
        assert forall|i: int| 0 <= i < words.len() implies (#[trigger] words[i]).0.0
            < e.block.var_space() && holds32(
            m,
            at(words[i].0, ran(m, e, args, st).0),
            words[i].1,
            ty,
            data[i],
        ) by {
            let t = words[i].1;
            assert(holds32(
                m,
                (m.constant)(consts[i], t),
                t,
                ty,
                constant_bytes(consts[i], types[t.0 as int]),
            ));
        }
        law_xor_fold_statements(alg, m, e, words, data, args, st);
    }
}

/// The statements of the keyed hash compute it for constants, under a key of
/// two words.
pub proof fn law_sip_computes<V, W>(
    m: Machine<V, W>,
    alg: SipHash48,
    types: Seq<IrTypeView>,
    ty: IRTypeId,
    bit_ty: IRTypeId,
)
    requires
        adds_up(m),
        ty.0 == crate::common::interned_index(types, u64_view()) as u32,
        computes64(m, ty, bit_ty),
        encodes64(m, ty, types),
    ensures
        computes_hash(m, alg, types, bit_ty, seq![ty, ty]),
{
    let key_tys = seq![ty, ty];
    assert forall|
        e: EmitterView,
        key: Seq<(IRVarId, IRTypeId)>,
        words: Seq<(IRVarId, IRTypeId)>,
        key_consts: Seq<Constant>,
        consts: Seq<Constant>,
        args: Seq<V>,
        st: IrState<V, W>,
    |
        #![trigger hold_constants(m, e, key, key_consts, args, st), hold_constants(m, e, words, consts, args, st)]
        e.types == types && e.bit_ty == bit_ty && have_types(key, key_tys) && args.len()
            == e.block.params.len() && e.has_room(
            alg.emission_room(words.len()),
        ) && hold_constants(m, e, key, key_consts, args, st) && hold_constants(
            m,
            e,
            words,
            consts,
            args,
            st,
        ) implies {
        let (e2, h) = alg.emission(e, key, words);
        &&& only_adds(m, e, e2, alg.emission_room(words.len()), args, st)
        &&& h.0 < e2.block.var_space()
        &&& num(m, e2, h, args, st) == le_value(
            alg.digest(bytes_of(key, key_consts, types), bytes_of(words, consts, types)),
        )
    } by {
        let data = bytes_of(words, consts, types);
        let key_data = bytes_of(key, key_consts, types);
        assert(e.type_id(u64_view()) == ty);
        assert forall|i: int| 0 <= i < 2 implies (#[trigger] key[i]).0.0 < e.block.var_space()
            && num(m, e, key[i].0, args, st) == word64(key_data[i]) by {
            assert(key[i].1 == key_tys[i]);
            assert(holds64(
                m,
                (m.constant)(key_consts[i], ty),
                ty,
                ty,
                constant_bytes(key_consts[i], types[ty.0 as int]),
            ));
        }
        assert forall|i: int| 0 <= i < words.len() implies (#[trigger] words[i]).0.0
            < e.block.var_space() && holds64(
            m,
            at(words[i].0, ran(m, e, args, st).0),
            words[i].1,
            ty,
            data[i],
        ) by {
            let t = words[i].1;
            assert(holds64(
                m,
                (m.constant)(consts[i], t),
                t,
                ty,
                constant_bytes(consts[i], types[t.0 as int]),
            ));
        }
        law_sip_statements(alg, m, e, key, words, key_data, data, args, st);
    }
}

/// Whether differences of hashes of type `ty` are found out: two values differ
/// by nothing exactly when they denote the same number, and the difference as
/// an address is the same.
pub open spec fn compares<V, W>(m: Machine<V, W>, ty: IRTypeId, addr_ty: IRTypeId) -> bool {
    &&& forall|a: V, b: V| #[trigger]
        (m.number)((m.plus)(ty, a, b)) == 0 <==> (m.number)(a) == (m.number)(b)
    &&& forall|a: V, b: V| #[trigger]
        (m.number)((m.transmute)(ty, addr_ty, (m.plus)(ty, a, b))) == 0 <==> (m.number)(a) == (
        m.number)(b)
}

/// Whether the hashes of an algorithm, as constants of type `ty`, denote what
/// their bytes do.
pub open spec fn denotes_hashes<V, W, H: IrHashAlgorithm>(
    m: Machine<V, W>,
    alg: H,
    ty: IRTypeId,
) -> bool {
    forall|key: Seq<Seq<u8>>, words: Seq<Seq<u8>>|
        (m.number)((m.constant)(constant_of_bytes(#[trigger] alg.digest(key, words)), ty))
            == le_value(alg.digest(key, words))
}

/// What stored values hold of a row: its handler, its slots and the key.
pub open spec fn holds_parts<V, W, H: IrHashAlgorithm>(
    m: Machine<V, W>,
    cells: spec_fn(StorageId, IRTypeId, nat) -> V,
    f: Frame,
    slots: Seq<HandlerSlot>,
    c: Check<H>,
    row: nat,
    handler: u32,
    values: Seq<Constant>,
    key: Seq<Constant>,
) -> bool {
    &&& cells(f.bytecode, f.addr_ty, row) == (m.constant)(constant_of(handler), f.addr_ty)
    &&& values.len() == slots.len()
    &&& forall|s: int|
        0 <= s < slots.len() ==> #[trigger] cells(f.slots[s], slots[s].ty, row) == (m.constant)(
            values[s],
            slots[s].ty,
        )
    &&& key.len() == c.key_tys.len()
    &&& c.key_storage is None ==> key.len() == 0
    &&& c.key_storage matches Some(storage) ==> forall|k: int|
        0 <= k < key.len() ==> #[trigger] cells(storage, c.key_tys[k], k as nat) == (m.constant)(
            key[k],
            c.key_tys[k],
        )
}

/// The reads of the key fetch it.
proof fn lemma_key_reads<V, W>(
    m: Machine<V, W>,
    e: EmitterView,
    storage: StorageId,
    key_tys: Seq<IRTypeId>,
    key: Seq<Constant>,
    n: nat,
    bit_ty: IRTypeId,
    args: Seq<V>,
    st: IrState<V, W>,
)
    requires
        numbers(m, e.addr_ty, bit_ty),
        args.len() == e.block.params.len(),
        n <= key.len() <= u32::MAX,
        key.len() == key_tys.len(),
        e.has_room(2 * n),
        forall|k: int|
            0 <= k < key.len() ==> #[trigger] (ran(m, e, args, st).1.cells)(
                storage,
                key_tys[k],
                k as nat,
            ) == (m.constant)(key[k], key_tys[k]),
    ensures
        ({
            let (e2, vars) = key_reads(e, storage, key_tys, n);
            &&& extended(m, e, e2, 2 * n, args, st)
            &&& e2.addr_ty == e.addr_ty
            &&& hold_constants(m, e2, vars, key.take(n as int), args, st)
            &&& forall|k: int| 0 <= k < n ==> (#[trigger] vars[k]).1 == key_tys[k]
        }),
    decreases n,
{
    lemma_run_length(m, e.block.stmts, args, st);
    if n > 0 {
        let k = (n - 1) as nat;
        lemma_key_reads(m, e, storage, key_tys, key, k, bit_ty, args, st);
        let (e1, vars) = key_reads(e, storage, key_tys, k);
        let ty = key_tys[k as int];
        let x = StmtView::Const(constant_of(k as u32), e.addr_ty);
        lemma_emitted(m, e1, x, args, st);
        let e2 = e1.push(x);
        let y = StmtView::StorageRead { storage, ty, addr: e1.next() };
        assert((ran(m, e, args, st).1.cells)(storage, key_tys[k as int], k as nat)
            == (m.constant)(key[k as int], ty));
        lemma_emitted(m, e2, y, args, st);
        let e3 = e2.push(y);
        lemma_twice(m, e1, e2, e3, 1, 1, args, st);
        lemma_twice(m, e, e1, e3, 2 * k, 2, args, st);
        let (e4, vars2) = key_reads(e, storage, key_tys, n);
        assert(e4 == e3);
        assert(vars2 == vars.push((e2.next(), ty)));
        assert forall|i: int| 0 <= i < n implies (#[trigger] vars2[i]).0.0 < e3.block.var_space()
            && at(vars2[i].0, ran(m, e3, args, st).0) == (m.constant)(
            key.take(n as int)[i],
            vars2[i].1,
        ) by {
            if i < k {
                assert(vars2[i] == vars[i]);
                assert(at(vars[i].0, ran(m, e3, args, st).0) == at(
                    vars[i].0,
                    ran(m, e1, args, st).0,
                ));
                assert(key.take(k as int)[i] == key[i]);
            }
        }
    }
}

/// The reads of the slots fetch them.
proof fn lemma_slot_reads<V, W>(
    m: Machine<V, W>,
    f: Frame,
    e: EmitterView,
    slots: Seq<HandlerSlot>,
    values: Seq<Constant>,
    n: nat,
    row: nat,
    args: Seq<V>,
    st: IrState<V, W>,
)
    requires
        args.len() == e.block.params.len(),
        e.block.var_space() > 0,
        n <= slots.len(),
        values.len() == slots.len(),
        e.has_room(n),
        num(m, e, pc_var(), args, st) == row,
        forall|s: int|
            0 <= s < slots.len() ==> #[trigger] (ran(m, e, args, st).1.cells)(
                f.slots[s],
                slots[s].ty,
                row,
            ) == (m.constant)(values[s], slots[s].ty),
    ensures
        ({
            let (e2, vars) = slot_reads(f, e, slots, n);
            &&& extended(m, e, e2, n, args, st)
            &&& e2.addr_ty == e.addr_ty
            &&& hold_constants(m, e2, vars, values.take(n as int), args, st)
            &&& forall|s: int| 0 <= s < n ==> (#[trigger] vars[s]).1 == slots[s].ty
        }),
    decreases n,
{
    lemma_run_length(m, e.block.stmts, args, st);
    if n > 0 {
        let k = (n - 1) as nat;
        lemma_slot_reads(m, f, e, slots, values, k, row, args, st);
        let (e1, vars) = slot_reads(f, e, slots, k);
        let ty = slots[k as int].ty;
        let x = f.slot_read(k, ty);
        lemma_kept(m, e, e1, k, pc_var(), args, st);
        assert((ran(m, e, args, st).1.cells)(f.slots[k as int], slots[k as int].ty, row)
            == (m.constant)(values[k as int], ty));
        lemma_emitted(m, e1, x, args, st);
        let e2 = e1.push(x);
        lemma_twice(m, e, e1, e2, k, 1, args, st);
        let (e4, vars2) = slot_reads(f, e, slots, n);
        assert(e4 == e2);
        assert(vars2 == vars.push((e1.next(), ty)));
        assert forall|i: int| 0 <= i < n implies (#[trigger] vars2[i]).0.0 < e2.block.var_space()
            && at(vars2[i].0, ran(m, e2, args, st).0) == (m.constant)(
            values.take(n as int)[i],
            vars2[i].1,
        ) by {
            if i < k {
                assert(vars2[i] == vars[i]);
                assert(at(vars[i].0, ran(m, e2, args, st).0) == at(
                    vars[i].0,
                    ran(m, e1, args, st).0,
                ));
                assert(values.take(k as int)[i] == values[i]);
            }
        }
    }
}

/// A check of a row finds no difference exactly when the hash that was
/// committed to is that of the row: of its handler and of its slots, under the
/// key. The check changes nothing but the variables that it defines.
#[verifier::rlimit(80)]
pub proof fn law_check_compares_hashes<V, W, H: IrHashAlgorithm>(
    m: Machine<V, W>,
    f: Frame,
    e: EmitterView,
    slots: Seq<HandlerSlot>,
    c: Check<H>,
    row: nat,
    handler: u32,
    values: Seq<Constant>,
    key: Seq<Constant>,
    args: Seq<V>,
    st: IrState<V, W>,
)
    requires
        adds_up(m),
        numbers(m, f.addr_ty, f.bit_ty),
        compares(m, c.hash_ty, f.addr_ty),
        computes_hash(m, c.algorithm, e.types, e.bit_ty, c.key_tys),
        adds_no_types(c.algorithm, e.types),
        e.addr_ty == f.addr_ty,
        args.len() == e.block.params.len(),
        e.block.var_space() > 0,
        key.len() <= u32::MAX,
        e.has_room(
            2 * key.len() + 4 + slots.len() + c.algorithm.emission_room(1 + slots.len()),
        ),
        num(m, e, pc_var(), args, st) == row,
        holds_parts(
            m,
            ran(m, e, args, st).1.cells,
            f,
            slots,
            c,
            row,
            handler,
            values,
            key,
        ),
    ensures
        ({
            let (e2, diff) = check_row(f, e, slots, c);
            let stored = (ran(m, e, args, st).1.cells)(c.storage, c.hash_ty, row);
            let key_bytes = Seq::new(
                key.len(),
                |k: int| constant_bytes(key[k], e.types[c.key_tys[k].0 as int]),
            );
            let row_bytes = seq![constant_bytes(constant_of(handler), e.types[f.addr_ty.0 as int])]
                + Seq::new(
                slots.len(),
                |s: int| constant_bytes(values[s], e.types[slots[s].ty.0 as int]),
            );
            &&& only_adds(
                m,
                e,
                e2,
                2 * key.len() + 4 + slots.len() + c.algorithm.emission_room(1 + slots.len()),
                args,
                st,
            )
            &&& e2.types == e.types
            &&& diff.0 < e2.block.var_space()
            &&& num(m, e2, diff, args, st) == 0 <==> (m.number)(stored) == le_value(
                c.algorithm.digest(key_bytes, row_bytes),
            )
        }),
{
    lemma_run_length(m, e.block.stmts, args, st);
    let cells = ran(m, e, args, st).1.cells;
    let (e1, key_vars) = match c.key_storage {
        Some(storage) => key_reads(e, storage, c.key_tys, c.key_tys.len()),
        None => (e, Seq::empty()),
    };
    let n1 = 2 * key.len();
    match c.key_storage {
        Some(storage) => {
            lemma_key_reads(
                m,
                e,
                storage,
                c.key_tys,
                key,
                key.len(),
                f.bit_ty,
                args,
                st,
            );
            assert(key.take(key.len() as int) =~= key);
        },
        None => {
            assert(key =~= Seq::empty());
        },
    }
    assert(extended(m, e, e1, n1, args, st));
    assert(hold_constants(m, e1, key_vars, key, args, st));
    assert(forall|k: int| 0 <= k < key.len() ==> (#[trigger] key_vars[k]).1 == c.key_tys[k]);
    lemma_kept(m, e, e1, n1, pc_var(), args, st);
    let x = StmtView::StorageRead { storage: f.bytecode, ty: f.addr_ty, addr: pc_var() };
    lemma_emitted(m, e1, x, args, st);
    let e2 = e1.push(x);
    let hv = (e1.next(), f.addr_ty);
    lemma_twice(m, e, e1, e2, n1, 1, args, st);
    lemma_kept(m, e, e2, n1 + 1, pc_var(), args, st);
    lemma_slot_reads(m, f, e2, slots, values, slots.len(), row, args, st);
    let (e3, slot_vars) = slot_reads(f, e2, slots, slots.len());
    lemma_twice(m, e, e2, e3, n1 + 1, slots.len(), args, st);
    assert(values.take(values.len() as int) =~= values);
    let words = seq![hv] + slot_vars;
    let consts = seq![constant_of(handler)] + values;
    let n3 = n1 + 1 + slots.len();
    assert(hold_constants(m, e3, words, consts, args, st)) by {
        assert forall|i: int| 0 <= i < words.len() implies (#[trigger] words[i]).0.0
            < e3.block.var_space() && at(words[i].0, ran(m, e3, args, st).0) == (m.constant)(
            consts[i],
            words[i].1,
        ) by {
            if i == 0 {
                lemma_one_kept(m, e2, e3, slots.len(), hv.0, args, st);
            } else {
                assert(words[i] == slot_vars[i - 1]);
                assert(consts[i] == values[i - 1]);
            }
        }
    }
    assert(hold_constants(m, e3, key_vars, key, args, st)) by {
        lemma_twice(m, e1, e2, e3, 1, slots.len(), args, st);
        assert forall|i: int| 0 <= i < key_vars.len() implies (#[trigger] key_vars[i]).0.0
            < e3.block.var_space() && at(key_vars[i].0, ran(m, e3, args, st).0) == (m.constant)(
            key[i],
            key_vars[i].1,
        ) by {
            lemma_one_kept(m, e1, e3, 1 + slots.len(), key_vars[i].0, args, st);
        }
    }
    assert(have_types(key_vars, c.key_tys));
    let (e4, h) = c.algorithm.emission(e3, key_vars, words);
    let n4 = (e4.block.var_space() - e3.block.var_space()) as nat;
    let same = EmitterView { types: e3.types, ..e4 };
    assert(extended(m, e3, same, n4, args, st));
    assert(ran(m, same, args, st) == ran(m, e4, args, st));
    lemma_twice(m, e, e3, same, n3, n4, args, st);
    lemma_kept(m, e, same, n3 + n4, pc_var(), args, st);
    assert(num(m, e4, pc_var(), args, st) == row);
    let y = StmtView::StorageRead { storage: c.storage, ty: c.hash_ty, addr: pc_var() };
    lemma_emitted(m, e4, y, args, st);
    let e5 = e4.push(y);
    lemma_twice(m, e, same, e5, n3 + n4, 1, args, st);
    let sv = e4.next();
    let stored = cells(c.storage, c.hash_ty, row);
    assert(at(sv, ran(m, e5, args, st).0) == stored);
    lemma_kept(m, e4, e5, 1, h, args, st);
    let env5 = ran(m, e5, args, st).0;
    lemma_xor(m, c.hash_ty, h, sv, env5);
    let z = StmtView::Poly {
        ty: c.hash_ty,
        coeffs: xor_terms(h, sv),
        constant: zero_constant(),
    };
    lemma_emitted(m, e5, z, args, st);
    let e6 = e5.push(z);
    lemma_twice(m, e, e5, e6, n3 + n4 + 1, 1, args, st);
    let d = e5.next();
    let diff = (m.plus)(c.hash_ty, at(h, env5), stored);
    assert(at(d, ran(m, e6, args, st).0) == diff);
    let key_bytes = Seq::new(
        key.len(),
        |k: int| constant_bytes(key[k], e.types[c.key_tys[k].0 as int]),
    );
    let row_bytes = seq![constant_bytes(constant_of(handler), e.types[f.addr_ty.0 as int])]
        + Seq::new(
        slots.len(),
        |s: int| constant_bytes(values[s], e.types[slots[s].ty.0 as int]),
    );
    assert(bytes_of(key_vars, key, e.types) =~= key_bytes);
    assert(bytes_of(words, consts, e.types) =~= row_bytes) by {
        let b = bytes_of(words, consts, e.types);
        assert forall|i: int| 0 <= i < b.len() implies b[i] == row_bytes[i] by {
            if i > 0 {
                assert(words[i] == slot_vars[i - 1]);
                assert(slot_vars[i - 1].1 == slots[i - 1].ty);
                assert(consts[i] == values[i - 1]);
            }
        }
    }
    assert(num(m, e5, h, args, st) == le_value(c.algorithm.digest(key_bytes, row_bytes)));
    if c.hash_ty != f.addr_ty {
        lemma_emitted(
            m,
            e6,
            StmtView::Transmute { src: d, src_ty: c.hash_ty, dst_ty: f.addr_ty },
            args,
            st,
        );
        let e7 = e6.push(
            StmtView::Transmute { src: d, src_ty: c.hash_ty, dst_ty: f.addr_ty },
        );
        lemma_twice(m, e, e6, e7, n3 + n4 + 2, 1, args, st);
    }
}

/// A variable keeps its value in a block that grew.
proof fn lemma_one_kept<V, W>(
    m: Machine<V, W>,
    e: EmitterView,
    e2: EmitterView,
    n: nat,
    v: IRVarId,
    args: Seq<V>,
    st: IrState<V, W>,
)
    requires
        extended(m, e, e2, n, args, st),
        v.0 < e.block.var_space(),
    ensures
        at(v, ran(m, e2, args, st).0) == at(v, ran(m, e, args, st).0),
{
}

} // verus!
