//! That the statements of the hash algorithms compute their hashes.

use vstd::arithmetic::power2::{lemma2_to64, lemma_pow2_pos, lemma_pow2_unfold, pow2};
use vstd::prelude::*;

use crate::common::{nth_bit, Constant};
use crate::ir::{vars_order, IRTypeId, IRVarId, StmtView};
use crate::sorted::{assoc_get, assoc_insert};
use crate::virt::canon::zero_constant;
use crate::virt::emit::xor_terms;
use crate::virt::hash::{law_le_value_of_bytes, le_value, pow256, EmitterView, IrHashAlgorithm};
use crate::virt::hash_sip::{
    absorb_ir, add64, bits_of, block_ir, carry_terms, compress_ir, finish_ir, init_ir, length_tag,
    ordered, ripple, rol64, rotated, round_ir, rounds_ir, sip_absorb, sip_compress, sip_finish,
    sip_hash, sip_init, sip_message, sip_round, sip_rounds, sum3_terms, sum64, sum_of, sum_with,
    u64_view, word64, SipHash48, SipVars, SipWords, SIP_C0, SIP_C1, SIP_C2, SIP_C3,
};
use crate::virt::hash_xor::{fold_steps, rol13, u32_view, word32, xor_fold, XorFoldHash32};
use crate::virt::ir_run::{
    act, adds_up, at, at_all, blank, lemma_inserted, lemma_run_length, lemma_run_push, lemma_single,
    lemma_xor, lemma_zero, operands, run_stmts, shape, sum, term, times_next, zero, IrState,
    Machine,
};

verus! {

// ---------------------------------------------------------------------------
// Values of emitted variables
// ---------------------------------------------------------------------------

/// The values of the variables of a block under construction, and the state
/// behind its statements.
pub open spec fn ran<V, W>(m: Machine<V, W>, e: EmitterView, args: Seq<V>, st: IrState<V, W>) -> (
    Seq<V>,
    IrState<V, W>,
) {
    run_stmts(m, e.block.stmts, args, st)
}

/// The number that a variable holds.
pub open spec fn num<V, W>(
    m: Machine<V, W>,
    e: EmitterView,
    v: IRVarId,
    args: Seq<V>,
    st: IrState<V, W>,
) -> nat {
    (m.number)(at(v, ran(m, e, args, st).0))
}

/// Whether a block grew by `n` statements that change nothing.
pub open spec fn extended<V, W>(
    m: Machine<V, W>,
    e: EmitterView,
    e2: EmitterView,
    n: nat,
    args: Seq<V>,
    st: IrState<V, W>,
) -> bool {
    &&& args.len() == e.block.params.len()
    &&& e2.block.params == e.block.params
    &&& e2.bit_ty == e.bit_ty
    &&& e2.types == e.types
    &&& e2.block.var_space() == e.block.var_space() + n
    &&& ran(m, e2, args, st).1 == ran(m, e, args, st).1
    &&& ran(m, e, args, st).0.len() == e.block.var_space()
    &&& ran(m, e2, args, st).0.len() == e2.block.var_space()
    &&& forall|v: IRVarId|
        v.0 < e.block.var_space() ==> #[trigger] at(v, ran(m, e2, args, st).0) == at(
            v,
            ran(m, e, args, st).0,
        )
}

/// Whether a block grew by at most `room` statements that change nothing. Types
/// may have been added.
pub open spec fn only_adds<V, W>(
    m: Machine<V, W>,
    e: EmitterView,
    e2: EmitterView,
    room: nat,
    args: Seq<V>,
    st: IrState<V, W>,
) -> bool {
    let n = (e2.block.var_space() - e.block.var_space()) as nat;
    &&& e.block.var_space() <= e2.block.var_space() <= e.block.var_space() + room
    &&& extended(m, e, EmitterView { types: e.types, ..e2 }, n, args, st)
}

/// One more statement that changes nothing.
pub proof fn lemma_emitted<V, W>(
    m: Machine<V, W>,
    e: EmitterView,
    x: StmtView,
    args: Seq<V>,
    st: IrState<V, W>,
)
    requires
        args.len() == e.block.params.len(),
        e.has_room(1),
        act(m, x, ran(m, e, args, st).0, ran(m, e, args, st).1).1 == ran(m, e, args, st).1,
    ensures
        extended(m, e, e.push(x), 1, args, st),
        at(e.next(), ran(m, e.push(x), args, st).0) == act(
            m,
            x,
            ran(m, e, args, st).0,
            ran(m, e, args, st).1,
        ).0,
{
    lemma_run_length(m, e.block.stmts, args, st);
    lemma_run_push(m, e.block.stmts, x, args, st);
}

// ---------------------------------------------------------------------------
// Folding by exclusive or
// ---------------------------------------------------------------------------

/// Whether a machine computes on words of 32 bits of type `ty`.
pub open spec fn computes32<V, W>(m: Machine<V, W>, ty: IRTypeId) -> bool {
    &&& forall|a: V, b: V|
        (m.number)(a) <= u32::MAX && (m.number)(b) <= u32::MAX ==> #[trigger] (m.number)(
            (m.plus)(ty, a, b),
        ) == ((m.number)(a) as u32 ^ (m.number)(b) as u32) as nat
    &&& forall|x: u32| #[trigger]
        (m.number)((m.constant)(Constant { hi: 0, lo: x as u128 }, ty)) == x
    &&& forall|a: V, w: W|
        (m.number)(a) <= u32::MAX ==> {
            let r = #[trigger] (m.other)(
                StmtView::Rol { src: IRVarId(0), ty, n: 13 },
                seq![a],
                w,
            );
            r.1 == w && (m.number)(r.0) == rol13((m.number)(a) as u32)
        }
}

/// Whether the first four of some bytes, as a word of type `ty`, are the value
/// of a variable.
pub open spec fn holds32<V, W>(
    m: Machine<V, W>,
    v: V,
    src_ty: IRTypeId,
    ty: IRTypeId,
    bytes: Seq<u8>,
) -> bool {
    let x = if src_ty == ty {
        v
    } else {
        (m.transmute)(src_ty, ty, v)
    };
    (m.number)(x) == word32(bytes)
}

/// The statements of the fold.
#[verifier::rlimit(90)]
proof fn lemma_fold_steps<V, W>(
    m: Machine<V, W>,
    e: EmitterView,
    h: IRVarId,
    words: Seq<(IRVarId, IRTypeId)>,
    ty: IRTypeId,
    data: Seq<Seq<u8>>,
    seed: u32,
    args: Seq<V>,
    st: IrState<V, W>,
)
    requires
        adds_up(m),
        computes32(m, ty),
        args.len() == e.block.params.len(),
        e.has_room(3 * words.len()),
        h.0 < e.block.var_space(),
        num(m, e, h, args, st) == seed,
        data.len() == words.len(),
        forall|i: int|
            0 <= i < words.len() ==> (#[trigger] words[i]).0.0 < h.0 && holds32(
                m,
                at(words[i].0, ran(m, e, args, st).0),
                words[i].1,
                ty,
                data[i],
            ),
    ensures
        ({
            let (e2, h2) = fold_steps(e, h, words, ty);
            &&& e2.block.var_space() <= e.block.var_space() + 3 * words.len()
            &&& e2.block.var_space() >= e.block.var_space()
            &&& extended(
                m,
                e,
                e2,
                (e2.block.var_space() - e.block.var_space()) as nat,
                args,
                st,
            )
            &&& h.0 <= h2.0 < e2.block.var_space()
            &&& num(m, e2, h2, args, st) == xor_fold(seed, data)
        }),
    decreases words.len(),
{
    lemma_run_length(m, e.block.stmts, args, st);
    if words.len() > 0 {
        let last = words.last();
        let before = words.drop_last();
        let data0 = data.drop_last();
        assert forall|i: int| 0 <= i < before.len() implies (#[trigger] before[i]).0.0 < h.0
            && holds32(m, at(before[i].0, ran(m, e, args, st).0), before[i].1, ty, data0[i]) by {
            assert(before[i] == words[i]);
        }
        lemma_fold_steps(m, e, h, before, ty, data0, seed, args, st);
        let (e1, h1) = fold_steps(e, h, before, ty);
        assert(words[words.len() - 1] == last);
        let env1 = ran(m, e1, args, st).0;
        assert(at(last.0, env1) == at(last.0, ran(m, e, args, st).0));
        let (e2, v) = if last.1 == ty {
            (e1, last.0)
        } else {
            (e1.push(StmtView::Transmute { src: last.0, src_ty: last.1, dst_ty: ty }), e1.next())
        };
        if last.1 != ty {
            lemma_emitted(
                m,
                e1,
                StmtView::Transmute { src: last.0, src_ty: last.1, dst_ty: ty },
                args,
                st,
            );
        }
        let env2 = ran(m, e2, args, st).0;
        assert((m.number)(at(v, env2)) == word32(data.last()));
        assert(at(h1, env2) == at(h1, env1));
        assert(h1 != v);
        let x = StmtView::Poly { ty, coeffs: xor_terms(h1, v), constant: zero_constant() };
        lemma_xor(m, ty, h1, v, env2);
        lemma_emitted(m, e2, x, args, st);
        let e3 = e2.push(x);
        let mid = e2.next();
        let env3 = ran(m, e3, args, st).0;
        assert(at(mid, env3) == (m.plus)(ty, at(h1, env2), at(v, env2)));
        let y = StmtView::Rol { src: mid, ty, n: 13 };
        assert(at_all(operands(y), env3) =~= seq![at(mid, env3)]);
        lemma_emitted(m, e3, y, args, st);
    }
}

/// The statements that fold words compute their hash: what they leave is the
/// number that the hash of the same words on bytes denotes.
pub proof fn law_xor_fold_statements<V, W>(
    alg: XorFoldHash32,
    m: Machine<V, W>,
    e: EmitterView,
    words: Seq<(IRVarId, IRTypeId)>,
    data: Seq<Seq<u8>>,
    args: Seq<V>,
    st: IrState<V, W>,
)
    requires
        adds_up(m),
        computes32(m, e.type_id(u32_view())),
        args.len() == e.block.params.len(),
        e.has_room(alg.emission_room(words.len())),
        data.len() == words.len(),
        forall|i: int|
            0 <= i < words.len() ==> (#[trigger] words[i]).0.0 < e.block.var_space() && holds32(
                m,
                at(words[i].0, ran(m, e, args, st).0),
                words[i].1,
                e.type_id(u32_view()),
                data[i],
            ),
    ensures
        ({
            let (e2, h) = alg.emission(e, Seq::empty(), words);
            &&& num(m, e2, h, args, st) == le_value(alg.digest(Seq::empty(), data))
            &&& only_adds(m, e, e2, alg.emission_room(words.len()), args, st)
            &&& e2.types == e.with_type(u32_view()).types
            &&& h.0 < e2.block.var_space()
        }),
{
    let ty = e.type_id(u32_view());
    let e1 = e.with_type(u32_view());
    let x = StmtView::Const(Constant { hi: 0, lo: alg.seed as u128 }, ty);
    assert(ran(m, e1, args, st) == ran(m, e, args, st));
    lemma_run_length(m, e.block.stmts, args, st);
    lemma_emitted(m, e1, x, args, st);
    let e2 = e1.push(x);
    let h = e1.next();
    assert forall|i: int| 0 <= i < words.len() implies (#[trigger] words[i]).0.0 < h.0 && holds32(
        m,
        at(words[i].0, ran(m, e2, args, st).0),
        words[i].1,
        ty,
        data[i],
    ) by {
        assert(at(words[i].0, ran(m, e2, args, st).0) == at(words[i].0, ran(m, e1, args, st).0));
    }
    lemma_fold_steps(m, e2, h, words, ty, data, alg.seed, args, st);
    let e3 = fold_steps(e2, h, words, ty).0;
    let grew = (e3.block.var_space() - e2.block.var_space()) as nat;
    lemma_twice(m, e1, e2, e3, 1, grew, args, st);
    assert(ran(m, EmitterView { types: e.types, ..e3 }, args, st) == ran(m, e3, args, st));
    let n = xor_fold(alg.seed, data) as nat;
    law_le_value_of_bytes(n, 4);
    reveal_with_fuel(pow256, 5);
    assert(n % 0x1_0000_0000 == n);
}

// ---------------------------------------------------------------------------
// Words of 64 bits
// ---------------------------------------------------------------------------

/// The number that bits denote, least significant first.
pub open spec fn of_bits(b: Seq<nat>) -> nat
    decreases b.len(),
{
    if b.len() == 0 {
        0
    } else {
        of_bits(b.drop_last()) + b.last() * pow2((b.len() - 1) as nat)
    }
}

/// A bit as a number.
pub open spec fn bit(b: bool) -> nat {
    if b {
        1
    } else {
        0
    }
}

/// As many variables as a word has bits, all the same.
pub open spec fn blank_word() -> Seq<IRVarId> {
    Seq::new(64, |i: int| IRVarId(0))
}

/// Whether a machine computes on words of 64 bits of type `ty` and on bits of
/// type `bit_ty`.
pub open spec fn computes64<V, W>(m: Machine<V, W>, ty: IRTypeId, bit_ty: IRTypeId) -> bool {
    &&& forall|a: V, b: V|
        (m.number)(a) <= u64::MAX && (m.number)(b) <= u64::MAX ==> #[trigger] (m.number)(
            (m.plus)(ty, a, b),
        ) == ((m.number)(a) as u64 ^ (m.number)(b) as u64) as nat
    &&& forall|x: u64| #[trigger]
        (m.number)((m.constant)(Constant { hi: 0, lo: x as u128 }, ty)) == x
    &&& forall|a: V, n: usize, w: W|
        n < 64 && (m.number)(a) <= u64::MAX ==> {
            let r = #[trigger] (m.other)(StmtView::Rol { src: IRVarId(0), ty, n }, seq![a], w);
            r.1 == w && (m.number)(r.0) == rol64((m.number)(a) as u64, n as u64)
        }
    &&& forall|a: V, i: u8, w: W|
        i < 64 ==> {
            let r = #[trigger] (m.other)(
                StmtView::Shuffle { result_bits: seq![(i, IRVarId(0))], ty: bit_ty },
                seq![a],
                w,
            );
            r.1 == w && (m.number)(r.0) == bit(nth_bit((m.number)(a), i as nat))
        }
    &&& forall|parts: Seq<V>, w: W|
        parts.len() == 64 ==> {
            let r = #[trigger] (m.other)(
                StmtView::Merge { parts: blank_word(), ty },
                parts,
                w,
            );
            r.1 == w && (m.number)(r.0) == of_bits(parts.map_values(|v: V| (m.number)(v)))
        }
    &&& computes_bits(m, bit_ty)
}

/// Whether a machine computes on bits of type `ty`.
pub open spec fn computes_bits<V, W>(m: Machine<V, W>, ty: IRTypeId) -> bool {
    &&& forall|a: V, b: V|
        (m.number)(a) < 2 && (m.number)(b) < 2 ==> (m.number)(#[trigger] (m.plus)(ty, a, b)) == ((
        m.number)(a) + (m.number)(b)) % 2
    &&& forall|a: V, b: V|
        (m.number)(a) < 2 && (m.number)(b) < 2 ==> (m.number)(#[trigger] (m.times)(ty, a, b)) == (
        m.number)(a) * (m.number)(b)
    &&& (m.number)(zero(m, ty)) == 0
}

/// The exclusive or of two words.
proof fn lemma_sum_of<V, W>(
    m: Machine<V, W>,
    e: EmitterView,
    a: IRVarId,
    b: IRVarId,
    ty: IRTypeId,
    args: Seq<V>,
    st: IrState<V, W>,
)
    requires
        adds_up(m),
        computes64(m, ty, e.bit_ty),
        args.len() == e.block.params.len(),
        e.has_room(1),
        a.0 < e.block.var_space(),
        b.0 < e.block.var_space(),
        a != b,
        num(m, e, a, args, st) <= u64::MAX,
        num(m, e, b, args, st) <= u64::MAX,
    ensures
        ({
            let (e2, r) = sum_of(e, a, b, ty);
            &&& extended(m, e, e2, 1, args, st)
            &&& r.0 == e.block.var_space()
            &&& num(m, e2, r, args, st) == (num(m, e, a, args, st) as u64 ^ num(
                m,
                e,
                b,
                args,
                st,
            ) as u64) as nat
        }),
{
    let env = ran(m, e, args, st).0;
    lemma_xor(m, ty, a, b, env);
    lemma_emitted(
        m,
        e,
        StmtView::Poly { ty, coeffs: xor_terms(a, b), constant: zero_constant() },
        args,
        st,
    );
}

/// The exclusive or of a word and a number.
proof fn lemma_sum_with<V, W>(
    m: Machine<V, W>,
    e: EmitterView,
    a: IRVarId,
    k: u64,
    ty: IRTypeId,
    args: Seq<V>,
    st: IrState<V, W>,
)
    requires
        adds_up(m),
        computes64(m, ty, e.bit_ty),
        args.len() == e.block.params.len(),
        e.has_room(1),
        a.0 < e.block.var_space(),
        num(m, e, a, args, st) <= u64::MAX,
    ensures
        ({
            let (e2, r) = sum_with(e, a, k, ty);
            let n: nat = if k == 0 {
                0
            } else {
                1
            };
            &&& extended(m, e, e2, n, args, st)
            &&& r.0 == (if k == 0 {
                a.0 as nat
            } else {
                e.block.var_space()
            })
            &&& num(m, e2, r, args, st) == (num(m, e, a, args, st) as u64 ^ k) as nat
        }),
{
    lemma_run_length(m, e.block.stmts, args, st);
    let env = ran(m, e, args, st).0;
    let x = num(m, e, a, args, st) as u64;
    if k == 0 {
        assert(x ^ 0u64 == x) by (bit_vector);
    } else {
        let c = Constant { hi: 0, lo: k as u128 };
        let terms = seq![(seq![a], 1u8)];
        lemma_single(m, ty, a, env);
        assert(terms.drop_first() =~= Seq::empty());
        lemma_zero(m, ty, at(a, env));
        assert(sum(m, ty, terms.drop_first(), env) == zero(m, ty));
        assert(terms[0] == (seq![a], 1u8));
        assert(sum(m, ty, terms, env) == at(a, env));
        lemma_emitted(m, e, StmtView::Poly { ty, coeffs: terms, constant: c }, args, st);
    }
}

/// A word rotated left.
proof fn lemma_rotated<V, W>(
    m: Machine<V, W>,
    e: EmitterView,
    a: IRVarId,
    n: usize,
    ty: IRTypeId,
    args: Seq<V>,
    st: IrState<V, W>,
)
    requires
        computes64(m, ty, e.bit_ty),
        args.len() == e.block.params.len(),
        e.has_room(1),
        a.0 < e.block.var_space(),
        num(m, e, a, args, st) <= u64::MAX,
        n < 64,
    ensures
        ({
            let (e2, r) = rotated(e, a, n, ty);
            &&& extended(m, e, e2, 1, args, st)
            &&& r.0 == e.block.var_space()
            &&& num(m, e2, r, args, st) == rol64(num(m, e, a, args, st) as u64, n as u64)
        }),
{
    let (env, s) = ran(m, e, args, st);
    let x = StmtView::Rol { src: a, ty, n };
    assert(at_all(operands(x), env) =~= seq![at(a, env)]);
    let r = (m.other)(StmtView::Rol { src: IRVarId(0), ty, n }, seq![at(a, env)], s.world);
    assert(r.1 == s.world);
    lemma_emitted(m, e, x, args, st);
}

/// The bits of a word.
#[verifier::rlimit(90)]
proof fn lemma_bits_of<V, W>(
    m: Machine<V, W>,
    e: EmitterView,
    a: IRVarId,
    n: nat,
    ty: IRTypeId,
    args: Seq<V>,
    st: IrState<V, W>,
)
    requires
        computes64(m, ty, e.bit_ty),
        args.len() == e.block.params.len(),
        n <= 64,
        e.has_room(n),
        a.0 < e.block.var_space(),
    ensures
        ({
            let (e2, bits) = bits_of(e, a, n);
            &&& extended(m, e, e2, n, args, st)
            &&& bits.len() == n
            &&& forall|k: int|
                0 <= k < n ==> (#[trigger] bits[k]).0 == e.block.var_space() + k && num(
                    m,
                    e2,
                    bits[k],
                    args,
                    st,
                ) == bit(nth_bit(num(m, e, a, args, st), k as nat))
        }),
    decreases n,
{
    lemma_run_length(m, e.block.stmts, args, st);
    if n > 0 {
        let k = (n - 1) as nat;
        lemma_bits_of(m, e, a, k, ty, args, st);
        let (e1, bits) = bits_of(e, a, k);
        let (env, s) = ran(m, e1, args, st);
        let x = StmtView::Shuffle { result_bits: seq![(k as u8, a)], ty: e.bit_ty };
        assert(at_all(operands(x), env) =~= seq![at(a, env)]);
        let blank = StmtView::Shuffle {
            result_bits: seq![(k as u8, IRVarId(0))],
            ty: e.bit_ty,
        };
        assert(shape(x)->Shuffle_result_bits =~= seq![(k as u8, IRVarId(0))]);
        assert(shape(x) == blank);
        let r = (m.other)(blank, seq![at(a, env)], s.world);
        assert(r.1 == s.world);
        lemma_emitted(m, e1, x, args, st);
        let (e2, bits2) = bits_of(e, a, n);
        assert forall|q: int| 0 <= q < n implies (#[trigger] bits2[q]).0 == e.block.var_space() + q
            && num(m, e2, bits2[q], args, st) == bit(nth_bit(num(m, e, a, args, st), q as nat)) by {
            if q < k {
                assert(bits2[q] == bits[q]);
                assert(at(bits2[q], ran(m, e2, args, st).0) == at(bits[q], env));
            }
        }
    }
}

/// Monomials of different variables, one after the other.
proof fn lemma_sum3<V, W>(
    m: Machine<V, W>,
    ty: IRTypeId,
    a: IRVarId,
    b: IRVarId,
    c: IRVarId,
    env: Seq<V>,
)
    requires
        adds_up(m),
        computes_bits(m, ty),
        a.0 < b.0 < c.0,
        (m.number)(at(a, env)) < 2,
        (m.number)(at(b, env)) < 2,
        (m.number)(at(c, env)) < 2,
    ensures
        (m.number)((m.plus)(ty, sum(m, ty, sum3_terms(a, b, c), env), zero(m, ty))) == ((m.number)(
            at(a, env),
        ) + (m.number)(at(b, env)) + (m.number)(at(c, env))) % 2,
{
    let t1 = xor_terms(a, b);
    lemma_different(a, b);
    lemma_different(a, c);
    lemma_different(b, c);
    let none = Seq::<(Seq<IRVarId>, u8)>::empty();
    let one = assoc_insert(none, seq![a], 1u8, vars_order());
    assert(one =~= seq![(seq![a], 1u8)]);
    crate::sorted::law_assoc_get_insert(none, seq![a], 1u8, vars_order(), seq![c]);
    crate::sorted::law_assoc_get_insert(one, seq![b], 1u8, vars_order(), seq![c]);
    lemma_inserted(m, ty, t1, seq![c], 1, env);
    lemma_single(m, ty, c, env);
    lemma_xor(m, ty, a, b, env);
    lemma_zero(m, ty, sum(m, ty, t1, env));
    lemma_zero(m, ty, sum(m, ty, sum3_terms(a, b, c), env));
}

proof fn lemma_different(a: IRVarId, b: IRVarId)
    requires
        a != b,
    ensures
        seq![a] != seq![b],
{
    assert(seq![a][0] == a && seq![b][0] == b);
}

/// A monomial of two variables.
proof fn lemma_pair<V, W>(m: Machine<V, W>, ty: IRTypeId, a: IRVarId, b: IRVarId, env: Seq<V>)
    requires
        adds_up(m),
        computes_bits(m, ty),
        (m.number)(at(a, env)) < 2,
        (m.number)(at(b, env)) < 2,
    ensures
        (m.number)(term(m, ty, at_all(seq![a, b], env), 1)) == (m.number)(at(a, env)) * (m.number)(
            at(b, env),
        ),
{
    let vs = at_all(seq![a, b], env);
    assert(vs =~= seq![at(a, env), at(b, env)]);
    let f = times_next(m, ty);
    let v1 = vs.drop_last();
    assert(v1 =~= seq![at(a, env)]);
    assert(v1.drop_last() =~= Seq::empty());
    assert(v1.drop_last().fold_left(None::<V>, f) == None::<V>);
    assert(v1.fold_left(None, f) == f(v1.drop_last().fold_left(None, f), v1.last()));
    assert(vs.fold_left(None, f) == f(v1.fold_left(None, f), vs.last()));
    crate::virt::ir_run::lemma_coefficients(
        m,
        ty,
        1,
        1,
        (m.times)(ty, at(a, env), at(b, env)),
    );
}

/// The majority of three bits.
#[verifier::rlimit(90)]
proof fn lemma_carry<V, W>(
    m: Machine<V, W>,
    ty: IRTypeId,
    a: IRVarId,
    b: IRVarId,
    c: IRVarId,
    env: Seq<V>,
)
    requires
        adds_up(m),
        computes_bits(m, ty),
        a.0 < b.0 < c.0,
        (m.number)(at(a, env)) < 2,
        (m.number)(at(b, env)) < 2,
        (m.number)(at(c, env)) < 2,
    ensures
        ({
            let x = (m.number)(at(a, env));
            let y = (m.number)(at(b, env));
            let z = (m.number)(at(c, env));
            (m.number)((m.plus)(ty, sum(m, ty, carry_terms(a, b, c), env), zero(m, ty))) == (x + y
                + z) / 2
        }),
{
    let x = (m.number)(at(a, env));
    let y = (m.number)(at(b, env));
    let z = (m.number)(at(c, env));
    let k1 = seq![a, b];
    let k2 = seq![a, c];
    let k3 = seq![b, c];
    assert(ordered(a, b) == k1 && ordered(a, c) == k2 && ordered(b, c) == k3);
    assert(k1 != k2) by {
        assert(k1[1] == b && k2[1] == c);
    }
    assert(k1 != k3) by {
        assert(k1[0] == a && k3[0] == b);
    }
    assert(k2 != k3) by {
        assert(k2[0] == a && k3[0] == b);
    }
    let none = Seq::<(Seq<IRVarId>, u8)>::empty();
    let t1 = assoc_insert(none, k1, 1u8, vars_order());
    let t2 = assoc_insert(t1, k2, 1u8, vars_order());
    assert(assoc_get(none, k1) is None);
    assert(assoc_get(none, k2) is None);
    assert(assoc_get(none, k3) is None);
    crate::sorted::law_assoc_get_insert(none, k1, 1u8, vars_order(), k2);
    crate::sorted::law_assoc_get_insert(none, k1, 1u8, vars_order(), k3);
    crate::sorted::law_assoc_get_insert(t1, k2, 1u8, vars_order(), k3);
    lemma_inserted(m, ty, none, k1, 1, env);
    lemma_inserted(m, ty, t1, k2, 1, env);
    lemma_inserted(m, ty, t2, k3, 1, env);
    lemma_pair(m, ty, a, b, env);
    lemma_pair(m, ty, a, c, env);
    lemma_pair(m, ty, b, c, env);
    assert(x * y < 2 && x * z < 2 && y * z < 2) by (nonlinear_arith)
        requires
            x < 2,
            y < 2,
            z < 2,
    ;
    let all = sum(m, ty, carry_terms(a, b, c), env);
    lemma_zero(m, ty, all);
    let p1 = term(m, ty, at_all(k1, env), 1);
    let p2 = term(m, ty, at_all(k2, env), 1);
    let p3 = term(m, ty, at_all(k3, env), 1);
    let s0 = zero(m, ty);
    let s1 = (m.plus)(ty, p1, s0);
    let s2 = (m.plus)(ty, p2, s1);
    assert(sum(m, ty, t1, env) == s1);
    assert(sum(m, ty, t2, env) == s2);
    assert(all == (m.plus)(ty, p3, s2));
    assert((m.number)(s1) == x * y);
    assert((m.number)(s2) == (x * z + x * y) % 2);
    assert((y * z + (x * z + x * y) % 2) % 2 == (x + y + z) / 2) by {
        assert(x == 0 || x == 1);
        assert(y == 0 || y == 1);
        assert(z == 0 || z == 1);
        assert(0 * y == 0 && 0 * z == 0 && 1 * y == y && 1 * z == z) by (nonlinear_arith);
        assert(y * 0 == 0 && y * 1 == y) by (nonlinear_arith);
    }
}

/// The low bits of a number, one at a time.
proof fn lemma_low_bits(x: nat, n: nat)
    ensures
        x % pow2(n + 1) == x % pow2(n) + bit(nth_bit(x, n)) * pow2(n),
    decreases n,
{
    lemma_pow2_unfold(n + 1);
    lemma_pow2_pos(n);
    if n == 0 {
        lemma2_to64();
        assert(pow2(0) == 1 && pow2(1) == 2);
        assert(x % 1 == 0);
        let b = bit(nth_bit(x, 0));
        assert(b * pow2(0) == b) by (nonlinear_arith)
            requires
                pow2(0) == 1,
        ;
    } else {
        let y = x / 2;
        let k = (n - 1) as nat;
        lemma_low_bits(y, k);
        lemma_pow2_unfold(n);
        lemma_pow2_pos(k);
        lemma_halved(x, n);
        lemma_halved(x, n + 1);
        let b = bit(nth_bit(x, n));
        assert(b == bit(nth_bit(y, k)));
        assert(y % pow2(n) == y % pow2(k) + b * pow2(k));
        assert(2 * (b * pow2(k)) == b * pow2(n)) by (nonlinear_arith)
            requires
                pow2(n) == 2 * pow2(k),
        ;
    }
}

/// The low bits of a number are its last bit and the low bits of its half.
proof fn lemma_halved(x: nat, n: nat)
    requires
        n > 0,
    ensures
        x % pow2(n) == x % 2 + 2 * ((x / 2) % pow2((n - 1) as nat)),
{
    lemma_pow2_unfold(n);
    let p = pow2((n - 1) as nat);
    lemma_pow2_pos((n - 1) as nat);
    assert(x % (2 * p) == x % 2 + 2 * ((x / 2) % p)) by (nonlinear_arith)
        requires
            p > 0,
    {
        let q = (x / 2) / p;
        let r = (x / 2) % p;
        assert(x / 2 == p * q + r && 0 <= r < p);
        assert(x == 2 * (x / 2) + x % 2);
        assert(x == (2 * p) * q + (2 * r + x % 2));
        assert(0 <= 2 * r + x % 2 < 2 * p);
        vstd::arithmetic::div_mod::lemma_fundamental_div_mod_converse(
            x as int,
            2 * p as int,
            q as int,
            (2 * r + x % 2) as int,
        );
    }
}

/// The bits of a sum.
#[verifier::rlimit(80)]
proof fn lemma_ripple<V, W>(
    m: Machine<V, W>,
    e: EmitterView,
    a: Seq<IRVarId>,
    b: Seq<IRVarId>,
    carry: IRVarId,
    n: nat,
    ty: IRTypeId,
    x: nat,
    y: nat,
    args: Seq<V>,
    st: IrState<V, W>,
)
    requires
        adds_up(m),
        computes64(m, ty, e.bit_ty),
        args.len() == e.block.params.len(),
        n <= 64,
        a.len() == 64,
        b.len() == 64,
        e.has_room(2 * n),
        carry.0 < e.block.var_space(),
        num(m, e, carry, args, st) == 0,
        forall|k: int|
            0 <= k < 64 ==> (#[trigger] a[k]).0 < b[k].0 && num(m, e, a[k], args, st) == bit(
                nth_bit(x, k as nat),
            ),
        forall|k: int|
            0 <= k < 64 ==> (#[trigger] b[k]).0 < carry.0 && num(m, e, b[k], args, st) == bit(
                nth_bit(y, k as nat),
            ),
    ensures
        ({
            let (e2, sums, c) = ripple(e, a, b, carry, n);
            let got = sums.map_values(|v: IRVarId| num(m, e2, v, args, st));
            &&& extended(m, e, e2, 2 * n, args, st)
            &&& sums.len() == n
            &&& carry.0 <= c.0 < e2.block.var_space()
            &&& num(m, e2, c, args, st) < 2
            &&& forall|k: int| 0 <= k < n ==> (#[trigger] sums[k]).0 < e2.block.var_space()
            &&& of_bits(got) + num(m, e2, c, args, st) * pow2(n) == x % pow2(n) + y % pow2(n)
        }),
    decreases n,
{
    lemma_run_length(m, e.block.stmts, args, st);
    if n == 0 {
        lemma2_to64();
        assert(x % 1 == 0 && y % 1 == 0);
        let (e2, sums, c) = ripple(e, a, b, carry, 0);
        assert(sums.map_values(|v: IRVarId| num(m, e2, v, args, st)) =~= Seq::empty());
        assert(0 * pow2(0) == 0) by (nonlinear_arith);
    } else {
        let k = (n - 1) as nat;
        lemma_ripple(m, e, a, b, carry, k, ty, x, y, args, st);
        let (e1, sums, c) = ripple(e, a, b, carry, k);
        let env0 = ran(m, e, args, st).0;
        let env1 = ran(m, e1, args, st).0;
        let va = a[k as int];
        let vb = b[k as int];
        assert(at(va, env1) == at(va, env0));
        assert(at(vb, env1) == at(vb, env0));
        lemma_sum3(m, e.bit_ty, va, vb, c, env1);
        let s1 = StmtView::Poly {
            ty: e.bit_ty,
            coeffs: sum3_terms(va, vb, c),
            constant: zero_constant(),
        };
        lemma_emitted(m, e1, s1, args, st);
        let e2 = e1.push(s1);
        let env2 = ran(m, e2, args, st).0;
        assert(at(va, env2) == at(va, env1));
        assert(at(vb, env2) == at(vb, env1));
        assert(at(c, env2) == at(c, env1));
        lemma_carry(m, e.bit_ty, va, vb, c, env2);
        let s2 = StmtView::Poly {
            ty: e.bit_ty,
            coeffs: carry_terms(va, vb, c),
            constant: zero_constant(),
        };
        lemma_emitted(m, e2, s2, args, st);
        let e3 = e2.push(s2);
        let env3 = ran(m, e3, args, st).0;
        assert(ripple(e, a, b, carry, n) == (e3, sums.push(e1.next()), e2.next()));
        let bx = bit(nth_bit(x, k));
        let by = bit(nth_bit(y, k));
        let bc = num(m, e1, c, args, st);
        let total = bx + by + bc;
        let low = num(m, e3, e1.next(), args, st);
        let high = num(m, e3, e2.next(), args, st);
        assert(at(e1.next(), env3) == at(e1.next(), env2));
        assert(low == total % 2);
        assert(high == total / 2);
        let got0 = sums.map_values(|v: IRVarId| num(m, e1, v, args, st));
        let got = sums.push(e1.next()).map_values(|v: IRVarId| num(m, e3, v, args, st));
        assert(got =~= got0.push(low)) by {
            assert forall|q: int| 0 <= q < k implies got[q] == got0[q] by {
                let v = sums[q];
                assert(v.0 < e1.block.var_space());
                assert(at(v, env3) == at(v, env2));
                assert(at(v, env2) == at(v, env1));
            }
        }
        assert(got.drop_last() =~= got0);
        lemma_low_bits(x, k);
        lemma_low_bits(y, k);
        lemma_pow2_unfold(n);
        let p = pow2(k);
        assert(low * p + high * pow2(n) == bx * p + by * p + bc * p) by (nonlinear_arith)
            requires
                pow2(n) == 2 * p,
                low + 2 * high == bx + by + bc,
        ;
    }
}

/// The sum of two words.
#[verifier::rlimit(80)]
proof fn lemma_sum64<V, W>(
    m: Machine<V, W>,
    e: EmitterView,
    a: IRVarId,
    b: IRVarId,
    ty: IRTypeId,
    args: Seq<V>,
    st: IrState<V, W>,
)
    requires
        adds_up(m),
        computes64(m, ty, e.bit_ty),
        args.len() == e.block.params.len(),
        e.has_room(258),
        a.0 < e.block.var_space(),
        b.0 < e.block.var_space(),
        num(m, e, a, args, st) <= u64::MAX,
        num(m, e, b, args, st) <= u64::MAX,
    ensures
        ({
            let (e2, r) = sum64(e, a, b, ty);
            &&& extended(m, e, e2, 258, args, st)
            &&& e.block.var_space() <= r.0 < e2.block.var_space()
            &&& num(m, e2, r, args, st) == add64(
                num(m, e, a, args, st) as u64,
                num(m, e, b, args, st) as u64,
            )
        }),
{
    let x = num(m, e, a, args, st);
    let y = num(m, e, b, args, st);
    lemma_bits_of(m, e, a, 64, ty, args, st);
    let (e1, bits_a) = bits_of(e, a, 64);
    let env = ran(m, e, args, st).0;
    let env1 = ran(m, e1, args, st).0;
    assert(at(b, env1) == at(b, env));
    lemma_bits_of(m, e1, b, 64, ty, args, st);
    let (e2, bits_b) = bits_of(e1, b, 64);
    let env2 = ran(m, e2, args, st).0;
    let c = StmtView::Const(zero_constant(), e.bit_ty);
    lemma_emitted(m, e2, c, args, st);
    let e3 = e2.push(c);
    let env3 = ran(m, e3, args, st).0;
    let carry = e2.next();
    assert forall|k: int| 0 <= k < 64 implies (#[trigger] bits_a[k]).0 < bits_b[k].0 && num(
        m,
        e3,
        bits_a[k],
        args,
        st,
    ) == bit(nth_bit(x, k as nat)) by {
        let v = bits_a[k];
        assert(num(m, e1, v, args, st) == bit(nth_bit(x, k as nat)));
        assert(bits_b[k].0 == e1.block.var_space() + k);
        assert(at(v, env3) == at(v, env2));
        assert(at(v, env2) == at(v, env1));
    }
    assert forall|k: int| 0 <= k < 64 implies (#[trigger] bits_b[k]).0 < carry.0 && num(
        m,
        e3,
        bits_b[k],
        args,
        st,
    ) == bit(nth_bit(y, k as nat)) by {
        let v = bits_b[k];
        assert(num(m, e2, v, args, st) == bit(nth_bit(y, k as nat)));
        assert(at(v, env3) == at(v, env2));
    }
    lemma_ripple(m, e3, bits_a, bits_b, carry, 64, ty, x, y, args, st);
    let (e4, sums, top) = ripple(e3, bits_a, bits_b, carry, 64);
    let (env4, s4) = ran(m, e4, args, st);
    let merge = StmtView::Merge { parts: sums, ty };
    let parts = at_all(sums, env4);
    let empty = blank_word();
    assert(blank(sums) =~= empty);
    let r = (m.other)(StmtView::Merge { parts: empty, ty }, parts, s4.world);
    assert(shape(merge) == (StmtView::Merge { parts: empty, ty }));
    assert(r.1 == s4.world);
    lemma_emitted(m, e4, merge, args, st);
    let got = sums.map_values(|v: IRVarId| num(m, e4, v, args, st));
    assert(parts.map_values(|v: V| (m.number)(v)) =~= got);
    lemma2_to64();
    let p = pow2(64);
    assert(p == 0x1_0000_0000_0000_0000);
    assert(x % p == x && y % p == y);
    lemma_bits_bound(got);
    let h = num(m, e4, top, args, st);
    assert(of_bits(got) == (x + y) % 0x1_0000_0000_0000_0000) by {
        assert(h == 0 || h == 1);
        assert(of_bits(got) < p) by {
            assert forall|k: int| 0 <= k < got.len() implies #[trigger] got[k] < 2 by {
                lemma_sum_bits(m, e3, bits_a, bits_b, carry, 64, ty, x, y, args, st, k);
            }
        }
    }
}

/// Bits denote less than the next power of two.
proof fn lemma_bits_bound(b: Seq<nat>)
    ensures
        (forall|k: int| 0 <= k < b.len() ==> #[trigger] b[k] < 2) ==> of_bits(b) < pow2(b.len()),
    decreases b.len(),
{
    if b.len() == 0 {
        lemma2_to64();
    } else {
        let n = (b.len() - 1) as nat;
        let rest = b.drop_last();
        lemma_bits_bound(rest);
        lemma_pow2_unfold(b.len());
        lemma_pow2_pos(n);
        if forall|k: int| 0 <= k < b.len() ==> #[trigger] b[k] < 2 {
            assert forall|k: int| 0 <= k < rest.len() implies #[trigger] rest[k] < 2 by {
                assert(rest[k] == b[k]);
            }
            assert(b[n as int] < 2);
            let t = b.last();
            let p = pow2(n);
            assert(t * p <= p) by (nonlinear_arith)
                requires
                    t < 2,
            ;
        }
    }
}

/// Every variable of a sum holds a bit.
proof fn lemma_sum_bits<V, W>(
    m: Machine<V, W>,
    e: EmitterView,
    a: Seq<IRVarId>,
    b: Seq<IRVarId>,
    carry: IRVarId,
    n: nat,
    ty: IRTypeId,
    x: nat,
    y: nat,
    args: Seq<V>,
    st: IrState<V, W>,
    k: int,
)
    requires
        adds_up(m),
        computes64(m, ty, e.bit_ty),
        args.len() == e.block.params.len(),
        n <= 64,
        a.len() == 64,
        b.len() == 64,
        e.has_room(2 * n),
        carry.0 < e.block.var_space(),
        num(m, e, carry, args, st) == 0,
        forall|k: int|
            0 <= k < 64 ==> (#[trigger] a[k]).0 < b[k].0 && num(m, e, a[k], args, st) == bit(
                nth_bit(x, k as nat),
            ),
        forall|k: int|
            0 <= k < 64 ==> (#[trigger] b[k]).0 < carry.0 && num(m, e, b[k], args, st) == bit(
                nth_bit(y, k as nat),
            ),
        0 <= k < n,
    ensures
        ({
            let (e2, sums, c) = ripple(e, a, b, carry, n);
            num(m, e2, sums[k], args, st) < 2
        }),
    decreases n,
{
    let q = (n - 1) as nat;
    lemma_ripple(m, e, a, b, carry, q, ty, x, y, args, st);
    lemma_ripple(m, e, a, b, carry, n, ty, x, y, args, st);
    let (e1, sums, c) = ripple(e, a, b, carry, q);
    let env0 = ran(m, e, args, st).0;
    let env1 = ran(m, e1, args, st).0;
    let va = a[q as int];
    let vb = b[q as int];
    assert(at(va, env1) == at(va, env0));
    assert(at(vb, env1) == at(vb, env0));
    let s1 = StmtView::Poly {
        ty: e.bit_ty,
        coeffs: sum3_terms(va, vb, c),
        constant: zero_constant(),
    };
    let e2 = e1.push(s1);
    lemma_emitted(m, e1, s1, args, st);
    let s2 = StmtView::Poly {
        ty: e.bit_ty,
        coeffs: carry_terms(va, vb, c),
        constant: zero_constant(),
    };
    let e3 = e2.push(s2);
    lemma_emitted(m, e2, s2, args, st);
    assert(ripple(e, a, b, carry, n) == (e3, sums.push(e1.next()), e2.next()));
    let env2 = ran(m, e2, args, st).0;
    let env3 = ran(m, e3, args, st).0;
    if k < q {
        lemma_sum_bits(m, e, a, b, carry, q, ty, x, y, args, st, k);
        let v = sums[k];
        assert(v.0 < e1.block.var_space());
        assert(at(v, env3) == at(v, env2));
        assert(at(v, env2) == at(v, env1));
    } else {
        lemma_sum3(m, e.bit_ty, va, vb, c, env1);
        assert(at(e1.next(), env3) == at(e1.next(), env2));
    }
}

// ---------------------------------------------------------------------------
// Rounds
// ---------------------------------------------------------------------------

/// Whether four variables hold four words.
pub open spec fn hold_words<V, W>(
    m: Machine<V, W>,
    e: EmitterView,
    v: SipVars,
    w: SipWords,
    args: Seq<V>,
    st: IrState<V, W>,
) -> bool {
    &&& v.v0.0 < e.block.var_space() && num(m, e, v.v0, args, st) == w.v0
    &&& v.v1.0 < e.block.var_space() && num(m, e, v.v1, args, st) == w.v1
    &&& v.v2.0 < e.block.var_space() && num(m, e, v.v2, args, st) == w.v2
    &&& v.v3.0 < e.block.var_space() && num(m, e, v.v3, args, st) == w.v3
}

/// A variable keeps its value in a block that grew.
pub proof fn lemma_kept<V, W>(
    m: Machine<V, W>,
    e: EmitterView,
    e2: EmitterView,
    n: nat,
    v: IRVarId,
    args: Seq<V>,
    st: IrState<V, W>,
)
    requires
        extended(m, e, e2, n, args, st),
        v.0 < e.block.var_space(),
    ensures
        num(m, e2, v, args, st) == num(m, e, v, args, st),
{
    assert(at(v, ran(m, e2, args, st).0) == at(v, ran(m, e, args, st).0));
}

/// A block that grew twice.
pub proof fn lemma_twice<V, W>(
    m: Machine<V, W>,
    e: EmitterView,
    e1: EmitterView,
    e2: EmitterView,
    n: nat,
    k: nat,
    args: Seq<V>,
    st: IrState<V, W>,
)
    requires
        extended(m, e, e1, n, args, st),
        extended(m, e1, e2, k, args, st),
    ensures
        extended(m, e, e2, n + k, args, st),
{
    let env = ran(m, e, args, st).0;
    let env2 = ran(m, e2, args, st).0;
    assert forall|v: IRVarId| v.0 < e.block.var_space() implies #[trigger] at(v, env2) == at(
        v,
        env,
    ) by {
        assert(at(v, env2) == at(v, ran(m, e1, args, st).0));
    }
}

/// One round.
#[verifier::rlimit(80)]
proof fn lemma_round<V, W>(
    m: Machine<V, W>,
    e: EmitterView,
    v: SipVars,
    w: SipWords,
    ty: IRTypeId,
    args: Seq<V>,
    st: IrState<V, W>,
)
    requires
        adds_up(m),
        computes64(m, ty, e.bit_ty),
        args.len() == e.block.params.len(),
        e.has_room(1042),
        hold_words(m, e, v, w, args, st),
    ensures
        ({
            let (e2, v2) = round_ir(e, v, ty);
            &&& extended(m, e, e2, 1042, args, st)
            &&& hold_words(m, e2, v2, sip_round(w), args, st)
            &&& e.block.var_space() <= v2.v0.0
            &&& e.block.var_space() <= v2.v1.0
            &&& e.block.var_space() <= v2.v2.0
            &&& e.block.var_space() <= v2.v3.0
        }),
{
    reveal(round_ir);
    reveal(sip_round);
    let (e1, w1) = sum64(e, v.v0, v.v1, ty);
    lemma_sum64(m, e, v.v0, v.v1, ty, args, st);
    lemma_kept(m, e, e1, 258, v.v1, args, st);
    lemma_kept(m, e, e1, 258, v.v2, args, st);
    lemma_kept(m, e, e1, 258, v.v3, args, st);
    let (e2, w2) = rotated(e1, v.v1, 13, ty);
    lemma_rotated(m, e1, v.v1, 13, ty, args, st);
    lemma_kept(m, e1, e2, 1, w1, args, st);
    lemma_kept(m, e1, e2, 1, v.v2, args, st);
    lemma_kept(m, e1, e2, 1, v.v3, args, st);
    lemma_twice(m, e, e1, e2, 258, 1, args, st);
    let (e3, w3) = sum_of(e2, w2, w1, ty);
    lemma_sum_of(m, e2, w2, w1, ty, args, st);
    lemma_kept(m, e2, e3, 1, w1, args, st);
    lemma_kept(m, e2, e3, 1, v.v2, args, st);
    lemma_kept(m, e2, e3, 1, v.v3, args, st);
    lemma_twice(m, e, e2, e3, 259, 1, args, st);
    let (e4, w4) = rotated(e3, w1, 32, ty);
    lemma_rotated(m, e3, w1, 32, ty, args, st);
    lemma_kept(m, e3, e4, 1, w3, args, st);
    lemma_kept(m, e3, e4, 1, v.v2, args, st);
    lemma_kept(m, e3, e4, 1, v.v3, args, st);
    lemma_twice(m, e, e3, e4, 260, 1, args, st);
    let (e5, w5) = sum64(e4, v.v2, v.v3, ty);
    lemma_sum64(m, e4, v.v2, v.v3, ty, args, st);
    lemma_kept(m, e4, e5, 258, w3, args, st);
    lemma_kept(m, e4, e5, 258, w4, args, st);
    lemma_kept(m, e4, e5, 258, v.v3, args, st);
    lemma_twice(m, e, e4, e5, 261, 258, args, st);
    let (e6, w6) = rotated(e5, v.v3, 16, ty);
    lemma_rotated(m, e5, v.v3, 16, ty, args, st);
    lemma_kept(m, e5, e6, 1, w3, args, st);
    lemma_kept(m, e5, e6, 1, w4, args, st);
    lemma_kept(m, e5, e6, 1, w5, args, st);
    lemma_twice(m, e, e5, e6, 519, 1, args, st);
    let (e7, w7) = sum_of(e6, w6, w5, ty);
    lemma_sum_of(m, e6, w6, w5, ty, args, st);
    lemma_kept(m, e6, e7, 1, w3, args, st);
    lemma_kept(m, e6, e7, 1, w4, args, st);
    lemma_kept(m, e6, e7, 1, w5, args, st);
    lemma_twice(m, e, e6, e7, 520, 1, args, st);
    let (e8, w8) = sum64(e7, w4, w7, ty);
    lemma_sum64(m, e7, w4, w7, ty, args, st);
    lemma_kept(m, e7, e8, 258, w3, args, st);
    lemma_kept(m, e7, e8, 258, w5, args, st);
    lemma_kept(m, e7, e8, 258, w7, args, st);
    lemma_twice(m, e, e7, e8, 521, 258, args, st);
    let (e9, w9) = rotated(e8, w7, 21, ty);
    lemma_rotated(m, e8, w7, 21, ty, args, st);
    lemma_kept(m, e8, e9, 1, w3, args, st);
    lemma_kept(m, e8, e9, 1, w5, args, st);
    lemma_kept(m, e8, e9, 1, w8, args, st);
    lemma_twice(m, e, e8, e9, 779, 1, args, st);
    let (e10, w10) = sum_of(e9, w9, w8, ty);
    lemma_sum_of(m, e9, w9, w8, ty, args, st);
    lemma_kept(m, e9, e10, 1, w3, args, st);
    lemma_kept(m, e9, e10, 1, w5, args, st);
    lemma_kept(m, e9, e10, 1, w8, args, st);
    lemma_twice(m, e, e9, e10, 780, 1, args, st);
    let (e11, w11) = sum64(e10, w5, w3, ty);
    lemma_sum64(m, e10, w5, w3, ty, args, st);
    lemma_kept(m, e10, e11, 258, w3, args, st);
    lemma_kept(m, e10, e11, 258, w8, args, st);
    lemma_kept(m, e10, e11, 258, w10, args, st);
    lemma_twice(m, e, e10, e11, 781, 258, args, st);
    let (e12, w12) = rotated(e11, w3, 17, ty);
    lemma_rotated(m, e11, w3, 17, ty, args, st);
    lemma_kept(m, e11, e12, 1, w8, args, st);
    lemma_kept(m, e11, e12, 1, w10, args, st);
    lemma_kept(m, e11, e12, 1, w11, args, st);
    lemma_twice(m, e, e11, e12, 1039, 1, args, st);
    let (e13, w13) = sum_of(e12, w12, w11, ty);
    lemma_sum_of(m, e12, w12, w11, ty, args, st);
    lemma_kept(m, e12, e13, 1, w8, args, st);
    lemma_kept(m, e12, e13, 1, w10, args, st);
    lemma_kept(m, e12, e13, 1, w11, args, st);
    lemma_twice(m, e, e12, e13, 1040, 1, args, st);
    let (e14, w14) = rotated(e13, w11, 32, ty);
    lemma_rotated(m, e13, w11, 32, ty, args, st);
    lemma_kept(m, e13, e14, 1, w8, args, st);
    lemma_kept(m, e13, e14, 1, w10, args, st);
    lemma_kept(m, e13, e14, 1, w13, args, st);
    lemma_twice(m, e, e13, e14, 1041, 1, args, st);
}

/// Some rounds.
proof fn lemma_rounds<V, W>(
    m: Machine<V, W>,
    e: EmitterView,
    v: SipVars,
    w: SipWords,
    n: nat,
    ty: IRTypeId,
    args: Seq<V>,
    st: IrState<V, W>,
)
    requires
        adds_up(m),
        computes64(m, ty, e.bit_ty),
        args.len() == e.block.params.len(),
        e.has_room(1042 * n),
        hold_words(m, e, v, w, args, st),
    ensures
        ({
            let (e2, v2) = rounds_ir(e, v, n, ty);
            &&& extended(m, e, e2, 1042 * n, args, st)
            &&& hold_words(m, e2, v2, sip_rounds(w, n), args, st)
            &&& n > 0 ==> e.block.var_space() <= v2.v0.0
            &&& n > 0 ==> e.block.var_space() <= v2.v1.0
            &&& n > 0 ==> e.block.var_space() <= v2.v2.0
            &&& n > 0 ==> e.block.var_space() <= v2.v3.0
        }),
    decreases n,
{
    lemma_run_length(m, e.block.stmts, args, st);
    if n > 0 {
        let k = (n - 1) as nat;
        lemma_rounds(m, e, v, w, k, ty, args, st);
        let (e1, v1) = rounds_ir(e, v, k, ty);
        lemma_round(m, e1, v1, sip_rounds(w, k), ty, args, st);
        let (e2, v2) = round_ir(e1, v1, ty);
        lemma_twice(m, e, e1, e2, 1042 * k, 1042, args, st);
    }
}

/// A message word.
proof fn lemma_compress<V, W>(
    m: Machine<V, W>,
    e: EmitterView,
    v: SipVars,
    w: SipWords,
    x: IRVarId,
    ty: IRTypeId,
    args: Seq<V>,
    st: IrState<V, W>,
)
    requires
        adds_up(m),
        computes64(m, ty, e.bit_ty),
        args.len() == e.block.params.len(),
        e.has_room(4170),
        hold_words(m, e, v, w, args, st),
        x.0 < e.block.var_space(),
        v.v3 != x,
        num(m, e, x, args, st) <= u64::MAX,
    ensures
        ({
            let (e2, v2) = compress_ir(e, v, x, ty);
            &&& extended(m, e, e2, 4170, args, st)
            &&& hold_words(
                m,
                e2,
                v2,
                sip_compress(w, num(m, e, x, args, st) as u64),
                args,
                st,
            )
            &&& e.block.var_space() <= v2.v3.0
        }),
{
    reveal(compress_ir);
    reveal(sip_compress);
    let y = num(m, e, x, args, st) as u64;
    let (e1, w3) = sum_of(e, v.v3, x, ty);
    lemma_sum_of(m, e, v.v3, x, ty, args, st);
    lemma_kept(m, e, e1, 1, v.v0, args, st);
    lemma_kept(m, e, e1, 1, v.v1, args, st);
    lemma_kept(m, e, e1, 1, v.v2, args, st);
    lemma_kept(m, e, e1, 1, x, args, st);
    let v1 = SipVars { v3: w3, ..v };
    let s1 = SipWords { v3: w.v3 ^ y, ..w };
    lemma_rounds(m, e1, v1, s1, 4, ty, args, st);
    let (e2, v2) = rounds_ir(e1, v1, 4, ty);
    let s2 = sip_rounds(s1, 4);
    lemma_kept(m, e1, e2, 4168, x, args, st);
    lemma_twice(m, e, e1, e2, 1, 4168, args, st);
    let (e3, w0) = sum_of(e2, v2.v0, x, ty);
    lemma_sum_of(m, e2, v2.v0, x, ty, args, st);
    lemma_kept(m, e2, e3, 1, v2.v1, args, st);
    lemma_kept(m, e2, e3, 1, v2.v2, args, st);
    lemma_kept(m, e2, e3, 1, v2.v3, args, st);
    lemma_twice(m, e, e2, e3, 4169, 1, args, st);
}

/// Whether the first eight of some bytes, as a word of type `ty`, are the value
/// of a variable.
pub open spec fn holds64<V, W>(
    m: Machine<V, W>,
    v: V,
    src_ty: IRTypeId,
    ty: IRTypeId,
    bytes: Seq<u8>,
) -> bool {
    let x = if src_ty == ty {
        v
    } else {
        (m.transmute)(src_ty, ty, v)
    };
    (m.number)(x) == word64(bytes)
}

/// Message word `i`.
proof fn lemma_block<V, W>(
    m: Machine<V, W>,
    e: EmitterView,
    words: Seq<(IRVarId, IRTypeId)>,
    data: Seq<Seq<u8>>,
    i: int,
    ty: IRTypeId,
    args: Seq<V>,
    st: IrState<V, W>,
) -> (n: nat)
    requires
        adds_up(m),
        computes64(m, ty, e.bit_ty),
        args.len() == e.block.params.len(),
        e.has_room(2),
        0 <= i < words.len(),
        data.len() == words.len(),
        words[i].0.0 < e.block.var_space(),
        holds64(m, at(words[i].0, ran(m, e, args, st).0), words[i].1, ty, data[i]),
    ensures
        ({
            let (e2, x) = block_ir(e, words, i, ty);
            &&& n <= 2
            &&& extended(m, e, e2, n, args, st)
            &&& x.0 < e2.block.var_space()
            &&& x == words[i].0 || e.block.var_space() <= x.0
            &&& num(m, e2, x, args, st) == sip_message(data)[i]
        }),
{
    lemma_run_length(m, e.block.stmts, args, st);
    let (var, src_ty) = words[i];
    let cast = StmtView::Transmute { src: var, src_ty, dst_ty: ty };
    let (e1, x1) = if src_ty == ty {
        (e, var)
    } else {
        (e.push(cast), e.next())
    };
    let n1: nat = if src_ty == ty {
        0
    } else {
        1
    };
    if src_ty != ty {
        lemma_emitted(m, e, cast, args, st);
    }
    assert(extended(m, e, e1, n1, args, st));
    assert(num(m, e1, x1, args, st) == word64(data[i]));
    if i + 1 == words.len() {
        let tag = length_tag(words.len());
        lemma_sum_with(m, e1, x1, tag, ty, args, st);
        let (e2, x2) = sum_with(e1, x1, tag, ty);
        let n2: nat = if tag == 0 {
            0
        } else {
            1
        };
        lemma_twice(m, e, e1, e2, n1, n2, args, st);
        n1 + n2
    } else {
        n1
    }
}

/// The first `n` inputs.
#[verifier::rlimit(90)]
proof fn lemma_absorb<V, W>(
    m: Machine<V, W>,
    e: EmitterView,
    v: SipVars,
    w: SipWords,
    words: Seq<(IRVarId, IRTypeId)>,
    data: Seq<Seq<u8>>,
    n: nat,
    ty: IRTypeId,
    args: Seq<V>,
    st: IrState<V, W>,
) -> (grew: nat)
    requires
        adds_up(m),
        computes64(m, ty, e.bit_ty),
        args.len() == e.block.params.len(),
        n <= words.len(),
        e.has_room(4172 * n),
        hold_words(m, e, v, w, args, st),
        data.len() == words.len(),
        forall|i: int|
            0 <= i < words.len() ==> (#[trigger] words[i]).0.0 < v.v3.0 && holds64(
                m,
                at(words[i].0, ran(m, e, args, st).0),
                words[i].1,
                ty,
                data[i],
            ),
    ensures
        ({
            let (e2, v2) = absorb_ir(e, v, words, n, ty);
            &&& grew <= 4172 * n
            &&& extended(m, e, e2, grew, args, st)
            &&& v.v3.0 <= v2.v3.0
            &&& hold_words(
                m,
                e2,
                v2,
                sip_absorb(w, sip_message(data).take(n as int)),
                args,
                st,
            )
        }),
    decreases n,
{
    lemma_run_length(m, e.block.stmts, args, st);
    let msg = sip_message(data);
    if n == 0 {
        assert(msg.take(0) =~= Seq::empty());
        0
    } else {
        let k = (n - 1) as nat;
        let g = lemma_absorb(m, e, v, w, words, data, k, ty, args, st);
        let (e1, v1) = absorb_ir(e, v, words, k, ty);
        let word = words[k as int];
        assert(word.0.0 < v.v3.0);
        assert(at(word.0, ran(m, e1, args, st).0) == at(word.0, ran(m, e, args, st).0));
        let b = lemma_block(m, e1, words, data, k as int, ty, args, st);
        let (e2, x) = block_ir(e1, words, k as int, ty);
        lemma_twice(m, e, e1, e2, g, b, args, st);
        lemma_kept(m, e1, e2, b, v1.v0, args, st);
        lemma_kept(m, e1, e2, b, v1.v1, args, st);
        lemma_kept(m, e1, e2, b, v1.v2, args, st);
        lemma_kept(m, e1, e2, b, v1.v3, args, st);
        let s1 = sip_absorb(w, msg.take(k as int));
        assert(msg.take(n as int).drop_last() =~= msg.take(k as int));
        assert(msg.take(n as int).last() == msg[k as int]);
        lemma_compress(m, e2, v1, s1, x, ty, args, st);
        let (e3, v3) = compress_ir(e2, v1, x, ty);
        lemma_twice(m, e, e2, e3, g + b, 4170, args, st);
        g + b + 4170
    }
}

/// The end.
#[verifier::rlimit(90)]
proof fn lemma_finish<V, W>(
    m: Machine<V, W>,
    e: EmitterView,
    v: SipVars,
    w: SipWords,
    ty: IRTypeId,
    args: Seq<V>,
    st: IrState<V, W>,
)
    requires
        adds_up(m),
        computes64(m, ty, e.bit_ty),
        args.len() == e.block.params.len(),
        e.has_room(8340),
        hold_words(m, e, v, w, args, st),
    ensures
        ({
            let (e2, r) = finish_ir(e, v, ty);
            &&& extended(m, e, e2, 8340, args, st)
            &&& r.0 < e2.block.var_space()
            &&& num(m, e2, r, args, st) == sip_finish(w)
        }),
{
    reveal(finish_ir);
    let (e1, w2) = sum_with(e, v.v2, 0xff, ty);
    lemma_sum_with(m, e, v.v2, 0xff, ty, args, st);
    lemma_kept(m, e, e1, 1, v.v0, args, st);
    lemma_kept(m, e, e1, 1, v.v1, args, st);
    lemma_kept(m, e, e1, 1, v.v3, args, st);
    let v1 = SipVars { v2: w2, ..v };
    let s1 = SipWords { v2: w.v2 ^ 0xff, ..w };
    lemma_rounds(m, e1, v1, s1, 8, ty, args, st);
    let (e2, x) = rounds_ir(e1, v1, 8, ty);
    let s = sip_rounds(s1, 8);
    lemma_twice(m, e, e1, e2, 1, 8336, args, st);
    lemma_round_vars(e1, v1, 8, ty);
    let (e3, r01) = sum_of(e2, x.v0, x.v1, ty);
    lemma_sum_of(m, e2, x.v0, x.v1, ty, args, st);
    lemma_kept(m, e2, e3, 1, x.v2, args, st);
    lemma_kept(m, e2, e3, 1, x.v3, args, st);
    lemma_twice(m, e, e2, e3, 8337, 1, args, st);
    let (e4, r23) = sum_of(e3, x.v2, x.v3, ty);
    lemma_sum_of(m, e3, x.v2, x.v3, ty, args, st);
    lemma_kept(m, e3, e4, 1, r01, args, st);
    lemma_twice(m, e, e3, e4, 8338, 1, args, st);
    lemma_sum_of(m, e4, r01, r23, ty, args, st);
    let e5 = sum_of(e4, r01, r23, ty).0;
    lemma_twice(m, e, e4, e5, 8339, 1, args, st);
    let a = s.v0;
    let b = s.v1;
    let c = s.v2;
    let d = s.v3;
    assert((a ^ b) ^ (c ^ d) == ((a ^ b) ^ c) ^ d) by (bit_vector);
}

/// The variables behind a round are different.
proof fn lemma_round_vars(e: EmitterView, v: SipVars, n: nat, ty: IRTypeId)
    requires
        n > 0,
        e.has_room(1042 * n),
    ensures
        ({
            let x = rounds_ir(e, v, n, ty).1;
            x.v0 != x.v1 && x.v2 != x.v3
        }),
{
    let k = (n - 1) as nat;
    let (e1, v1) = rounds_ir(e, v, k, ty);
    lemma_rounds_size(e, v, k, ty);
    lemma_round_size(e1, v1, ty);
}

/// How a block grows by a sum.
proof fn lemma_sum64_size(e: EmitterView, a: IRVarId, b: IRVarId, ty: IRTypeId)
    requires
        e.has_room(258),
    ensures
        sum64(e, a, b, ty).0.block.var_space() == e.block.var_space() + 258,
        sum64(e, a, b, ty).1.0 == e.block.var_space() + 257,
{
    lemma_bits_size(e, a, 64);
    let (e1, bits_a) = bits_of(e, a, 64);
    lemma_bits_size(e1, b, 64);
    let (e2, bits_b) = bits_of(e1, b, 64);
    let e3 = e2.push(StmtView::Const(zero_constant(), e.bit_ty));
    lemma_ripple_size(e3, bits_a, bits_b, e2.next(), 64);
}

/// How a block grows by bits.
proof fn lemma_bits_size(e: EmitterView, a: IRVarId, n: nat)
    ensures
        bits_of(e, a, n).0.block.var_space() == e.block.var_space() + n,
    decreases n,
{
    if n > 0 {
        lemma_bits_size(e, a, (n - 1) as nat);
    }
}

/// How a block grows by the bits of a sum.
proof fn lemma_ripple_size(
    e: EmitterView,
    a: Seq<IRVarId>,
    b: Seq<IRVarId>,
    carry: IRVarId,
    n: nat,
)
    ensures
        ripple(e, a, b, carry, n).0.block.var_space() == e.block.var_space() + 2 * n,
    decreases n,
{
    if n > 0 {
        lemma_ripple_size(e, a, b, carry, (n - 1) as nat);
    }
}

/// How a block grows by a round.
proof fn lemma_round_size(e: EmitterView, v: SipVars, ty: IRTypeId)
    requires
        e.has_room(1042),
    ensures
        round_ir(e, v, ty).0.block.var_space() == e.block.var_space() + 1042,
        round_ir(e, v, ty).1.v0 != round_ir(e, v, ty).1.v1,
        round_ir(e, v, ty).1.v2 != round_ir(e, v, ty).1.v3,
{
    reveal(round_ir);
    let (e1, w1) = sum64(e, v.v0, v.v1, ty);
    lemma_sum64_size(e, v.v0, v.v1, ty);
    let (e2, w2) = rotated(e1, v.v1, 13, ty);
    let (e3, w3) = sum_of(e2, w2, w1, ty);
    let (e4, w4) = rotated(e3, w1, 32, ty);
    let (e5, w5) = sum64(e4, v.v2, v.v3, ty);
    lemma_sum64_size(e4, v.v2, v.v3, ty);
    let (e6, w6) = rotated(e5, v.v3, 16, ty);
    let (e7, w7) = sum_of(e6, w6, w5, ty);
    let (e8, w8) = sum64(e7, w4, w7, ty);
    lemma_sum64_size(e7, w4, w7, ty);
    let (e9, w9) = rotated(e8, w7, 21, ty);
    let (e10, w10) = sum_of(e9, w9, w8, ty);
    lemma_sum64_size(e10, w5, w3, ty);
}

/// How a block grows by some rounds.
proof fn lemma_rounds_size(e: EmitterView, v: SipVars, n: nat, ty: IRTypeId)
    requires
        e.has_room(1042 * n),
    ensures
        rounds_ir(e, v, n, ty).0.block.var_space() == e.block.var_space() + 1042 * n,
    decreases n,
{
    if n > 0 {
        let k = (n - 1) as nat;
        lemma_rounds_size(e, v, k, ty);
        let (e1, v1) = rounds_ir(e, v, k, ty);
        lemma_round_size(e1, v1, ty);
    }
}

/// The statements that hash words under a key compute their hash: what they
/// leave is the number that the hash of the same words on bytes denotes.
#[verifier::rlimit(90)]
pub proof fn law_sip_statements<V, W>(
    alg: SipHash48,
    m: Machine<V, W>,
    e: EmitterView,
    key: Seq<(IRVarId, IRTypeId)>,
    words: Seq<(IRVarId, IRTypeId)>,
    key_data: Seq<Seq<u8>>,
    data: Seq<Seq<u8>>,
    args: Seq<V>,
    st: IrState<V, W>,
)
    requires
        adds_up(m),
        computes64(m, e.type_id(u64_view()), e.bit_ty),
        args.len() == e.block.params.len(),
        e.has_room(alg.emission_room(words.len())),
        key.len() == 2,
        key_data.len() == 2,
        forall|i: int|
            0 <= i < 2 ==> (#[trigger] key[i]).0.0 < e.block.var_space() && num(
                m,
                e,
                key[i].0,
                args,
                st,
            ) == word64(key_data[i]),
        data.len() == words.len(),
        forall|i: int|
            0 <= i < words.len() ==> (#[trigger] words[i]).0.0 < e.block.var_space() && holds64(
                m,
                at(words[i].0, ran(m, e, args, st).0),
                words[i].1,
                e.type_id(u64_view()),
                data[i],
            ),
    ensures
        ({
            let (e2, h) = alg.emission(e, key, words);
            &&& num(m, e2, h, args, st) == le_value(alg.digest(key_data, data))
            &&& only_adds(m, e, e2, alg.emission_room(words.len()), args, st)
            &&& e2.types == e.with_type(u64_view()).types
            &&& h.0 < e2.block.var_space()
        }),
{
    let ty = e.type_id(u64_view());
    let a = e.with_type(u64_view());
    assert(ran(m, a, args, st) == ran(m, e, args, st));
    let k0 = key[0].0;
    let k1 = key[1].0;
    let x0 = word64(key_data[0]);
    let x1 = word64(key_data[1]);
    assert(num(m, a, k0, args, st) == x0 && num(m, a, k1, args, st) == x1);
    let (e1, v0) = sum_with(a, k0, SIP_C0, ty);
    lemma_sum_with(m, a, k0, SIP_C0, ty, args, st);
    lemma_kept(m, a, e1, 1, k0, args, st);
    lemma_kept(m, a, e1, 1, k1, args, st);
    let (e2, v1) = sum_with(e1, k1, SIP_C1, ty);
    lemma_sum_with(m, e1, k1, SIP_C1, ty, args, st);
    lemma_kept(m, e1, e2, 1, k0, args, st);
    lemma_kept(m, e1, e2, 1, k1, args, st);
    lemma_kept(m, e1, e2, 1, v0, args, st);
    lemma_twice(m, a, e1, e2, 1, 1, args, st);
    let (e3, v2) = sum_with(e2, k0, SIP_C2, ty);
    lemma_sum_with(m, e2, k0, SIP_C2, ty, args, st);
    lemma_kept(m, e2, e3, 1, k1, args, st);
    lemma_kept(m, e2, e3, 1, v0, args, st);
    lemma_kept(m, e2, e3, 1, v1, args, st);
    lemma_twice(m, a, e2, e3, 2, 1, args, st);
    let (e4, v3) = sum_with(e3, k1, SIP_C3, ty);
    lemma_sum_with(m, e3, k1, SIP_C3, ty, args, st);
    lemma_kept(m, e3, e4, 1, v0, args, st);
    lemma_kept(m, e3, e4, 1, v1, args, st);
    lemma_kept(m, e3, e4, 1, v2, args, st);
    lemma_twice(m, a, e3, e4, 3, 1, args, st);
    let v = SipVars { v0, v1, v2, v3 };
    let w = sip_init(x0, x1);
    assert(init_ir(a, k0, k1, ty) == (e4, v));
    assert(hold_words(m, e4, v, w, args, st));
    let msg = sip_message(data);
    if words.len() == 0 {
        let c = StmtView::Const(zero_constant(), ty);
        lemma_emitted(m, e4, c, args, st);
        let e5 = e4.push(c);
        let x = e4.next();
        lemma_kept(m, e4, e5, 1, v0, args, st);
        lemma_kept(m, e4, e5, 1, v1, args, st);
        lemma_kept(m, e4, e5, 1, v2, args, st);
        lemma_kept(m, e4, e5, 1, v3, args, st);
        assert(zero_constant() == (Constant { hi: 0, lo: 0u64 as u128 }));
        assert(num(m, e5, x, args, st) == 0);
        lemma_compress(m, e5, v, w, x, ty, args, st);
        let (e6, v6) = compress_ir(e5, v, x, ty);
        assert((0u64 << 56u64) == 0u64) by (bit_vector);
        assert(length_tag(0) == 0);
        assert(msg =~= seq![0u64]);
        assert(msg.drop_last() =~= Seq::empty());
        assert(sip_absorb(w, msg.drop_last()) == w);
        assert(sip_absorb(w, msg) == sip_compress(w, 0));
        lemma_finish(m, e6, v6, sip_absorb(w, msg), ty, args, st);
        let e7 = finish_ir(e6, v6, ty).0;
        lemma_twice(m, a, e4, e5, 4, 1, args, st);
        lemma_twice(m, a, e5, e6, 5, 4170, args, st);
        lemma_twice(m, a, e6, e7, 4175, 8340, args, st);
        assert(ran(m, EmitterView { types: e.types, ..e7 }, args, st) == ran(m, e7, args, st));
    } else {
        assert forall|i: int| 0 <= i < words.len() implies (#[trigger] words[i]).0.0 < v.v3.0
            && holds64(m, at(words[i].0, ran(m, e4, args, st).0), words[i].1, ty, data[i]) by {
            let u = words[i].0;
            assert(at(u, ran(m, e4, args, st).0) == at(u, ran(m, a, args, st).0));
        }
        let g = lemma_absorb(m, e4, v, w, words, data, words.len(), ty, args, st);
        let (e6, v6) = absorb_ir(e4, v, words, words.len(), ty);
        assert(msg.take(words.len() as int) =~= msg);
        lemma_finish(m, e6, v6, sip_absorb(w, msg), ty, args, st);
        let e7 = finish_ir(e6, v6, ty).0;
        lemma_twice(m, a, e4, e6, 4, g, args, st);
        lemma_twice(m, a, e6, e7, 4 + g, 8340, args, st);
        assert(ran(m, EmitterView { types: e.types, ..e7 }, args, st) == ran(m, e7, args, st));
    }
    let n = sip_hash(x0, x1, data) as nat;
    law_le_value_of_bytes(n, 8);
    reveal_with_fuel(pow256, 9);
    assert(n % 0x1_0000_0000_0000_0000 == n);
}

} // verus!
