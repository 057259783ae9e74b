//! SipHash with four compression and eight finalisation rounds.
//!
//! As statements, exclusive or is a polynomial, rotation a rotation, and
//! addition a ripple-carry adder on single bits.

use vstd::prelude::*;

use crate::common::{type_views, Constant, IrType, IrTypeView, OracleDecl, Type, TypeTable};
use crate::ir::{vars_order, IRTypeId, IRVarId, PolyCoeffs, Stmt, StmtView};
use crate::sorted::assoc_insert;
use crate::virt::canon::zero_constant;
use crate::virt::emit::{xor_coeffs, xor_terms};
use crate::virt::hash::{
    from_le_bytes, le_bytes, le_value, min_len, to_le_bytes, word_views, EmitterView, IrEmitter,
    IrHashAlgorithm,
};

verus! {

/// SipHash with four compression rounds, eight finalisation rounds and a key of
/// two words of 64 bits.
#[derive(Clone, Copy, PartialEq, Eq, Debug, Structural)]
pub struct SipHash48;

impl Default for SipHash48 {
    fn default() -> (r: Self) {
        SipHash48
    }
}

pub const SIP_C0: u64 = 0x736f_6d65_7073_6575;

pub const SIP_C1: u64 = 0x646f_7261_6e64_6f6d;

pub const SIP_C2: u64 = 0x6c79_6765_6e65_7261;

pub const SIP_C3: u64 = 0x7465_6462_7974_6573;

// ---------------------------------------------------------------------------
// On numbers
// ---------------------------------------------------------------------------

/// The state of the hash.
#[derive(Clone, Copy, PartialEq, Eq, Debug, Structural)]
pub struct SipWords {
    pub v0: u64,
    pub v1: u64,
    pub v2: u64,
    pub v3: u64,
}

/// The sum of two words, without the carry out.
pub open spec fn add64(a: u64, b: u64) -> u64 {
    ((a + b) % 0x1_0000_0000_0000_0000) as u64
}

/// A word rotated left.
pub open spec fn rol64(a: u64, n: u64) -> u64 {
    (a << n) | (a >> (64 - n) as u64)
}

/// One round.
#[verifier::opaque]
pub open spec fn sip_round(v: SipWords) -> SipWords {
    let w1 = add64(v.v0, v.v1);
    let w2 = rol64(v.v1, 13);
    let w3 = w2 ^ w1;
    let w4 = rol64(w1, 32);
    let w5 = add64(v.v2, v.v3);
    let w6 = rol64(v.v3, 16);
    let w7 = w6 ^ w5;
    let w8 = add64(w4, w7);
    let w9 = rol64(w7, 21);
    let w10 = w9 ^ w8;
    let w11 = add64(w5, w3);
    let w12 = rol64(w3, 17);
    let w13 = w12 ^ w11;
    let w14 = rol64(w11, 32);
    SipWords { v0: w8, v1: w13, v2: w14, v3: w10 }
}

/// Some rounds.
pub open spec fn sip_rounds(v: SipWords, n: nat) -> SipWords
    decreases n,
{
    if n == 0 {
        v
    } else {
        sip_round(sip_rounds(v, (n - 1) as nat))
    }
}

/// The state after a message word.
#[verifier::opaque]
pub open spec fn sip_compress(v: SipWords, m: u64) -> SipWords {
    let w = sip_rounds(SipWords { v3: v.v3 ^ m, ..v }, 4);
    SipWords { v0: w.v0 ^ m, ..w }
}

/// The state after some message words.
pub open spec fn sip_absorb(v: SipWords, words: Seq<u64>) -> SipWords
    decreases words.len(),
{
    if words.len() == 0 {
        v
    } else {
        sip_compress(sip_absorb(v, words.drop_last()), words.last())
    }
}

/// The hash of a state.
pub open spec fn sip_finish(v: SipWords) -> u64 {
    let w = sip_rounds(SipWords { v2: v.v2 ^ 0xff, ..v }, 8);
    ((w.v0 ^ w.v1) ^ w.v2) ^ w.v3
}

/// The state at the start.
pub open spec fn sip_init(k0: u64, k1: u64) -> SipWords {
    SipWords { v0: k0 ^ SIP_C0, v1: k1 ^ SIP_C1, v2: k0 ^ SIP_C2, v3: k1 ^ SIP_C3 }
}

/// The first eight bytes of a word as a number.
pub open spec fn word64(w: Seq<u8>) -> u64 {
    le_value(w.take(min_len(w.len() as int, 8))) as u64
}

/// What the length of the message contributes to its last word: the number of
/// bytes, modulo 256, in the top byte.
pub open spec fn length_tag(n: nat) -> u64 {
    (((8 * n) % 256) as u64) << 56
}

/// The message words: an empty message is one zero word, and the last word
/// carries the length.
pub open spec fn sip_message(words: Seq<Seq<u8>>) -> Seq<u64> {
    let n = words.len();
    if n == 0 {
        seq![length_tag(0)]
    } else {
        Seq::new(
            n,
            |i: int|
                if i + 1 == n {
                    word64(words[i]) ^ length_tag(n)
                } else {
                    word64(words[i])
                },
        )
    }
}

/// The hash of a message under a key.
pub open spec fn sip_hash(k0: u64, k1: u64, words: Seq<Seq<u8>>) -> u64 {
    sip_finish(sip_absorb(sip_init(k0, k1), sip_message(words)))
}

/// One round.
fn sip_round_native(v: &mut SipWords)
    ensures
        *final(v) == sip_round(*old(v)),
{
    proof {
        reveal(sip_round);
    }
    v.v0 = v.v0.wrapping_add(v.v1);
    v.v1 = (v.v1 << 13) | (v.v1 >> 51);
    v.v1 = v.v1 ^ v.v0;
    v.v0 = (v.v0 << 32) | (v.v0 >> 32);
    v.v2 = v.v2.wrapping_add(v.v3);
    v.v3 = (v.v3 << 16) | (v.v3 >> 48);
    v.v3 = v.v3 ^ v.v2;
    v.v0 = v.v0.wrapping_add(v.v3);
    v.v3 = (v.v3 << 21) | (v.v3 >> 43);
    v.v3 = v.v3 ^ v.v0;
    v.v2 = v.v2.wrapping_add(v.v1);
    v.v1 = (v.v1 << 17) | (v.v1 >> 47);
    v.v1 = v.v1 ^ v.v2;
    v.v2 = (v.v2 << 32) | (v.v2 >> 32);
}

/// Some rounds.
fn sip_rounds_native(v: &mut SipWords, n: u8)
    ensures
        *final(v) == sip_rounds(*old(v), n as nat),
{
    let mut i: u8 = 0;
    while i < n
        invariant
            i <= n,
            *v == sip_rounds(*old(v), i as nat),
        decreases n - i,
    {
        sip_round_native(v);
        i += 1;
    }
}

/// Take a message word into the state.
fn sip_compress_native(v: &mut SipWords, m: u64)
    ensures
        *final(v) == sip_compress(*old(v), m),
{
    proof {
        reveal(sip_compress);
    }
    v.v3 = v.v3 ^ m;
    sip_rounds_native(v, 4);
    v.v0 = v.v0 ^ m;
}

/// The first eight bytes of a word as a number.
fn le_bytes_to_u64(bytes: &Vec<u8>) -> (r: u64)
    ensures
        r == word64(bytes@),
{
    assert(bytes@.skip(0) =~= bytes@);
    from_le_bytes(bytes, 0, 8) as u64
}

/// What the length of the message contributes to its last word.
fn length_byte(n: usize) -> (r: u64)
    ensures
        r == length_tag(n as nat),
{
    let low: u64 = (n % 32) as u64;
    assert((8 * n as nat) % 256 == 8 * (n as nat % 32)) by (nonlinear_arith);
    (8 * low) << 56
}

// ---------------------------------------------------------------------------
// As statements
// ---------------------------------------------------------------------------

/// The variables of the state.
#[derive(Clone, Copy, PartialEq, Eq, Debug, Structural)]
pub struct SipVars {
    pub v0: IRVarId,
    pub v1: IRVarId,
    pub v2: IRVarId,
    pub v3: IRVarId,
}

/// Whether a block grew from another by at most `n` statements.
pub open spec fn grown(a: EmitterView, b: EmitterView, n: nat) -> bool {
    &&& b.block.params == a.block.params
    &&& b.block.terminator == a.block.terminator
    &&& b.types == a.types
    &&& b.addr_ty == a.addr_ty
    &&& b.bit_ty == a.bit_ty
    &&& b.block.var_space() <= a.block.var_space() + n
}

/// The exclusive or of two words.
pub open spec fn sum_of(e: EmitterView, a: IRVarId, b: IRVarId, ty: IRTypeId) -> (
    EmitterView,
    IRVarId,
) {
    (
        e.push(StmtView::Poly { ty, coeffs: xor_terms(a, b), constant: zero_constant() }),
        e.next(),
    )
}

/// The exclusive or of a word and a number.
pub open spec fn sum_with(e: EmitterView, a: IRVarId, k: u64, ty: IRTypeId) -> (
    EmitterView,
    IRVarId,
) {
    if k == 0 {
        (e, a)
    } else {
        (
            e.push(
                StmtView::Poly {
                    ty,
                    coeffs: seq![(seq![a], 1u8)],
                    constant: Constant { hi: 0, lo: k as u128 },
                },
            ),
            e.next(),
        )
    }
}

/// A word rotated left.
pub open spec fn rotated(e: EmitterView, a: IRVarId, n: usize, ty: IRTypeId) -> (
    EmitterView,
    IRVarId,
) {
    (e.push(StmtView::Rol { src: a, ty, n }), e.next())
}

/// The `n` low bits of a word.
pub open spec fn bits_of(e: EmitterView, a: IRVarId, n: nat) -> (EmitterView, Seq<IRVarId>)
    decreases n,
{
    if n == 0 {
        (e, Seq::empty())
    } else {
        let (e1, bits) = bits_of(e, a, (n - 1) as nat);
        (
            e1.push(StmtView::Shuffle { result_bits: seq![((n - 1) as u8, a)], ty: e.bit_ty }),
            bits.push(e1.next()),
        )
    }
}

/// The coefficients of the sum of three variables.
pub open spec fn sum3_terms(a: IRVarId, b: IRVarId, c: IRVarId) -> Seq<(Seq<IRVarId>, u8)> {
    assoc_insert(xor_terms(a, b), seq![c], 1u8, vars_order())
}

/// Two variables in increasing order.
pub open spec fn ordered(a: IRVarId, b: IRVarId) -> Seq<IRVarId> {
    if a.0 <= b.0 {
        seq![a, b]
    } else {
        seq![b, a]
    }
}

/// The coefficients of the majority of three variables.
pub open spec fn carry_terms(a: IRVarId, b: IRVarId, c: IRVarId) -> Seq<(Seq<IRVarId>, u8)> {
    assoc_insert(
        assoc_insert(
            assoc_insert(Seq::empty(), ordered(a, b), 1u8, vars_order()),
            ordered(a, c),
            1u8,
            vars_order(),
        ),
        ordered(b, c),
        1u8,
        vars_order(),
    )
}

/// The sum of the `n` low bits of two words, and the carry.
pub open spec fn ripple(
    e: EmitterView,
    a: Seq<IRVarId>,
    b: Seq<IRVarId>,
    carry: IRVarId,
    n: nat,
) -> (EmitterView, Seq<IRVarId>, IRVarId)
    decreases n,
{
    if n == 0 {
        (e, Seq::empty(), carry)
    } else {
        let (e1, sums, c) = ripple(e, a, b, carry, (n - 1) as nat);
        let x = a[n - 1];
        let y = b[n - 1];
        let e2 = e1.push(
            StmtView::Poly { ty: e.bit_ty, coeffs: sum3_terms(x, y, c), constant: zero_constant() },
        );
        (
            e2.push(
                StmtView::Poly {
                    ty: e.bit_ty,
                    coeffs: carry_terms(x, y, c),
                    constant: zero_constant(),
                },
            ),
            sums.push(e1.next()),
            e2.next(),
        )
    }
}

/// The sum of two words of 64 bits.
pub open spec fn sum64(e: EmitterView, a: IRVarId, b: IRVarId, ty: IRTypeId) -> (
    EmitterView,
    IRVarId,
) {
    let (e1, bits_a) = bits_of(e, a, 64);
    let (e2, bits_b) = bits_of(e1, b, 64);
    let e3 = e2.push(StmtView::Const(zero_constant(), e.bit_ty));
    let (e4, sums, _) = ripple(e3, bits_a, bits_b, e2.next(), 64);
    (e4.push(StmtView::Merge { parts: sums, ty }), e4.next())
}

/// One round.
#[verifier::opaque]
pub open spec fn round_ir(e: EmitterView, v: SipVars, ty: IRTypeId) -> (EmitterView, SipVars) {
    let (e1, w1) = sum64(e, v.v0, v.v1, ty);
    let (e2, w2) = rotated(e1, v.v1, 13, ty);
    let (e3, w3) = sum_of(e2, w2, w1, ty);
    let (e4, w4) = rotated(e3, w1, 32, ty);
    let (e5, w5) = sum64(e4, v.v2, v.v3, ty);
    let (e6, w6) = rotated(e5, v.v3, 16, ty);
    let (e7, w7) = sum_of(e6, w6, w5, ty);
    let (e8, w8) = sum64(e7, w4, w7, ty);
    let (e9, w9) = rotated(e8, w7, 21, ty);
    let (e10, w10) = sum_of(e9, w9, w8, ty);
    let (e11, w11) = sum64(e10, w5, w3, ty);
    let (e12, w12) = rotated(e11, w3, 17, ty);
    let (e13, w13) = sum_of(e12, w12, w11, ty);
    let (e14, w14) = rotated(e13, w11, 32, ty);
    (e14, SipVars { v0: w8, v1: w13, v2: w14, v3: w10 })
}

/// Some rounds.
pub open spec fn rounds_ir(e: EmitterView, v: SipVars, n: nat, ty: IRTypeId) -> (
    EmitterView,
    SipVars,
)
    decreases n,
{
    if n == 0 {
        (e, v)
    } else {
        let (e1, v1) = rounds_ir(e, v, (n - 1) as nat, ty);
        round_ir(e1, v1, ty)
    }
}

/// The state after a message word.
#[verifier::opaque]
pub open spec fn compress_ir(e: EmitterView, v: SipVars, m: IRVarId, ty: IRTypeId) -> (
    EmitterView,
    SipVars,
) {
    let (e1, w3) = sum_of(e, v.v3, m, ty);
    let (e2, w) = rounds_ir(e1, SipVars { v3: w3, ..v }, 4, ty);
    let (e3, w0) = sum_of(e2, w.v0, m, ty);
    (e3, SipVars { v0: w0, ..w })
}

/// The message word of input `i`: widened or cut to 64 bits, the last one with
/// the length.
pub open spec fn block_ir(
    e: EmitterView,
    words: Seq<(IRVarId, IRTypeId)>,
    i: int,
    ty: IRTypeId,
) -> (EmitterView, IRVarId) {
    let (var, src_ty) = words[i];
    let (e1, m) = if src_ty == ty {
        (e, var)
    } else {
        (e.push(StmtView::Transmute { src: var, src_ty, dst_ty: ty }), e.next())
    };
    if i + 1 == words.len() {
        sum_with(e1, m, length_tag(words.len()), ty)
    } else {
        (e1, m)
    }
}

/// The state after the first `n` inputs.
pub open spec fn absorb_ir(
    e: EmitterView,
    v: SipVars,
    words: Seq<(IRVarId, IRTypeId)>,
    n: nat,
    ty: IRTypeId,
) -> (EmitterView, SipVars)
    decreases n,
{
    if n == 0 {
        (e, v)
    } else {
        let (e1, v1) = absorb_ir(e, v, words, (n - 1) as nat, ty);
        let (e2, m) = block_ir(e1, words, n - 1, ty);
        compress_ir(e2, v1, m, ty)
    }
}

/// The hash of a state.
#[verifier::opaque]
pub open spec fn finish_ir(e: EmitterView, v: SipVars, ty: IRTypeId) -> (EmitterView, IRVarId) {
    let (e1, w2) = sum_with(e, v.v2, 0xff, ty);
    let (e2, w) = rounds_ir(e1, SipVars { v2: w2, ..v }, 8, ty);
    let (e3, r01) = sum_of(e2, w.v0, w.v1, ty);
    let (e4, r23) = sum_of(e3, w.v2, w.v3, ty);
    sum_of(e4, r01, r23, ty)
}

/// The state at the start.
pub open spec fn init_ir(e: EmitterView, k0: IRVarId, k1: IRVarId, ty: IRTypeId) -> (
    EmitterView,
    SipVars,
) {
    let (e1, v0) = sum_with(e, k0, SIP_C0, ty);
    let (e2, v1) = sum_with(e1, k1, SIP_C1, ty);
    let (e3, v2) = sum_with(e2, k0, SIP_C2, ty);
    let (e4, v3) = sum_with(e3, k1, SIP_C3, ty);
    (e4, SipVars { v0, v1, v2, v3 })
}

/// The type of words of 64 bits.
pub open spec fn u64_view() -> IrTypeView {
    IrTypeView::Primitive(Type::_64)
}

/// The exclusive or of two words.
fn sip_xor<E: IrEmitter>(emitter: &mut E, a: IRVarId, b: IRVarId, u64_ty: IRTypeId) -> (r: IRVarId)
    requires
        old(emitter).state().has_room(1),
    ensures
        (final(emitter).state(), r) == sum_of(old(emitter).state(), a, b, u64_ty),
        grown(old(emitter).state(), final(emitter).state(), 1),
{
    emitter.emit(
        Stmt::Poly {
            ty: u64_ty,
            coeffs: xor_coeffs(a, b),
            constant: Constant { hi: 0, lo: 0 },
        },
    )
}

/// The exclusive or of a word and a number.
fn sip_xor_const<E: IrEmitter>(emitter: &mut E, a: IRVarId, k: u64, u64_ty: IRTypeId) -> (r:
    IRVarId)
    requires
        old(emitter).state().has_room(1),
    ensures
        (final(emitter).state(), r) == sum_with(old(emitter).state(), a, k, u64_ty),
        grown(old(emitter).state(), final(emitter).state(), 1),
{
    if k == 0 {
        return a;
    }
    let mut coeffs = PolyCoeffs::new();
    let mut mono: Vec<IRVarId> = Vec::new();
    mono.push(a);
    coeffs.insert(mono, 1);
    assert(mono@ =~= seq![a]);
    assert(coeffs@ =~= seq![(seq![a], 1u8)]);
    emitter.emit(Stmt::Poly { ty: u64_ty, coeffs, constant: Constant { hi: 0, lo: k as u128 } })
}

/// A word rotated left.
fn sip_rol64<E: IrEmitter>(emitter: &mut E, a: IRVarId, n: usize, u64_ty: IRTypeId) -> (r: IRVarId)
    requires
        old(emitter).state().has_room(1),
    ensures
        (final(emitter).state(), r) == rotated(old(emitter).state(), a, n, u64_ty),
        grown(old(emitter).state(), final(emitter).state(), 1),
{
    emitter.emit(Stmt::Rol { src: a, ty: u64_ty, n })
}

/// The bits of a word of 64 bits.
fn word_bits<E: IrEmitter>(emitter: &mut E, a: IRVarId) -> (r: Vec<IRVarId>)
    requires
        old(emitter).state().has_room(64),
    ensures
        (final(emitter).state(), r@) == bits_of(old(emitter).state(), a, 64),
        grown(old(emitter).state(), final(emitter).state(), 64),
        r@.len() == 64,
{
    let bit_ty: IRTypeId = emitter.bit_ty();
    let mut out: Vec<IRVarId> = Vec::new();
    let mut i: u8 = 0;
    while i < 64
        invariant
            i <= 64,
            bit_ty == old(emitter).state().bit_ty,
            old(emitter).state().has_room(64),
            (emitter.state(), out@) == bits_of(old(emitter).state(), a, i as nat),
            grown(old(emitter).state(), emitter.state(), i as nat),
            out@.len() == i,
        decreases 64 - i,
    {
        let mut bits: Vec<(u8, IRVarId)> = Vec::new();
        bits.push((i, a));
        assert(bits@ =~= seq![(i, a)]);
        out.push(emitter.emit(Stmt::Shuffle { result_bits: bits, ty: bit_ty }));
        i += 1;
    }
    out
}

/// Two variables in increasing order.
fn ordered_pair(a: IRVarId, b: IRVarId) -> (r: Vec<IRVarId>)
    ensures
        r@ == ordered(a, b),
{
    let mut out: Vec<IRVarId> = Vec::new();
    if a.0 <= b.0 {
        out.push(a);
        out.push(b);
    } else {
        out.push(b);
        out.push(a);
    }
    assert(out@ =~= ordered(a, b));
    out
}

/// The sum of two words of 64 bits: both are taken apart, added bit by bit with
/// a carry, and the sums are put together.
fn sip_add64<E: IrEmitter>(emitter: &mut E, a: IRVarId, b: IRVarId, u64_ty: IRTypeId) -> (r:
    IRVarId)
    requires
        old(emitter).state().has_room(258),
    ensures
        (final(emitter).state(), r) == sum64(old(emitter).state(), a, b, u64_ty),
        grown(old(emitter).state(), final(emitter).state(), 258),
{
    let ghost e0 = emitter.state();
    let bit_ty: IRTypeId = emitter.bit_ty();
    let bits_a = word_bits(emitter, a);
    let bits_b = word_bits(emitter, b);
    let mut carry: IRVarId = emitter.emit(Stmt::Const(Constant { hi: 0, lo: 0 }, bit_ty));
    let ghost e3 = emitter.state();
    let ghost c0 = carry;
    let mut sums: Vec<IRVarId> = Vec::new();
    let mut i: usize = 0;
    while i < 64
        invariant
            i <= 64,
            bits_a@.len() == 64,
            bits_b@.len() == 64,
            bit_ty == e3.bit_ty,
            e3.has_room(129),
            (emitter.state(), sums@, carry) == ripple(e3, bits_a@, bits_b@, c0, i as nat),
            grown(e3, emitter.state(), 2 * i as nat),
        decreases 64 - i,
    {
        let x: IRVarId = bits_a[i];
        let y: IRVarId = bits_b[i];
        let mut sum_coeffs = xor_coeffs(x, y);
        let mut third: Vec<IRVarId> = Vec::new();
        third.push(carry);
        assert(third@ =~= seq![carry]);
        sum_coeffs.insert(third, 1);
        let s: IRVarId = emitter.emit(
            Stmt::Poly { ty: bit_ty, coeffs: sum_coeffs, constant: Constant { hi: 0, lo: 0 } },
        );
        let mut carry_coeffs = PolyCoeffs::new();
        carry_coeffs.insert(ordered_pair(x, y), 1);
        carry_coeffs.insert(ordered_pair(x, carry), 1);
        carry_coeffs.insert(ordered_pair(y, carry), 1);
        carry = emitter.emit(
            Stmt::Poly { ty: bit_ty, coeffs: carry_coeffs, constant: Constant { hi: 0, lo: 0 } },
        );
        sums.push(s);
        i += 1;
    }
    emitter.emit(Stmt::Merge { parts: sums, ty: u64_ty })
}

/// One round.
fn sip_round_ir<E: IrEmitter>(emitter: &mut E, v: &mut SipVars, u64_ty: IRTypeId)
    requires
        old(emitter).state().has_room(1042),
    ensures
        (final(emitter).state(), *final(v)) == round_ir(old(emitter).state(), *old(v), u64_ty),
        grown(old(emitter).state(), final(emitter).state(), 1042),
{
    proof {
        reveal(round_ir);
    }
    v.v0 = sip_add64(emitter, v.v0, v.v1, u64_ty);
    v.v1 = sip_rol64(emitter, v.v1, 13, u64_ty);
    v.v1 = sip_xor(emitter, v.v1, v.v0, u64_ty);
    v.v0 = sip_rol64(emitter, v.v0, 32, u64_ty);
    v.v2 = sip_add64(emitter, v.v2, v.v3, u64_ty);
    v.v3 = sip_rol64(emitter, v.v3, 16, u64_ty);
    v.v3 = sip_xor(emitter, v.v3, v.v2, u64_ty);
    v.v0 = sip_add64(emitter, v.v0, v.v3, u64_ty);
    v.v3 = sip_rol64(emitter, v.v3, 21, u64_ty);
    v.v3 = sip_xor(emitter, v.v3, v.v0, u64_ty);
    v.v2 = sip_add64(emitter, v.v2, v.v1, u64_ty);
    v.v1 = sip_rol64(emitter, v.v1, 17, u64_ty);
    v.v1 = sip_xor(emitter, v.v1, v.v2, u64_ty);
    v.v2 = sip_rol64(emitter, v.v2, 32, u64_ty);
}

/// Some rounds.
fn sip_rounds_ir<E: IrEmitter>(emitter: &mut E, v: &mut SipVars, n: usize, u64_ty: IRTypeId)
    requires
        old(emitter).state().has_room(1042 * n as nat),
    ensures
        (final(emitter).state(), *final(v)) == rounds_ir(
            old(emitter).state(),
            *old(v),
            n as nat,
            u64_ty,
        ),
        grown(old(emitter).state(), final(emitter).state(), 1042 * n as nat),
{
    let mut i: usize = 0;
    while i < n
        invariant
            i <= n,
            old(emitter).state().has_room(1042 * n as nat),
            (emitter.state(), *v) == rounds_ir(old(emitter).state(), *old(v), i as nat, u64_ty),
            grown(old(emitter).state(), emitter.state(), 1042 * i as nat),
        decreases n - i,
    {
        sip_round_ir(emitter, v, u64_ty);
        i += 1;
    }
}

/// Take a message word into the state.
fn sip_compress_ir<E: IrEmitter>(emitter: &mut E, v: &mut SipVars, m: IRVarId, u64_ty: IRTypeId)
    requires
        old(emitter).state().has_room(4170),
    ensures
        (final(emitter).state(), *final(v)) == compress_ir(
            old(emitter).state(),
            *old(v),
            m,
            u64_ty,
        ),
        grown(old(emitter).state(), final(emitter).state(), 4170),
{
    proof {
        reveal(compress_ir);
    }
    v.v3 = sip_xor(emitter, v.v3, m, u64_ty);
    sip_rounds_ir(emitter, v, 4, u64_ty);
    v.v0 = sip_xor(emitter, v.v0, m, u64_ty);
}

/// The hash of a state.
fn sip_finalize_ir<E: IrEmitter>(emitter: &mut E, v: &mut SipVars, u64_ty: IRTypeId) -> (r: IRVarId)
    requires
        old(emitter).state().has_room(8340),
    ensures
        (final(emitter).state(), r) == finish_ir(old(emitter).state(), *old(v), u64_ty),
        grown(old(emitter).state(), final(emitter).state(), 8340),
{
    proof {
        reveal(finish_ir);
    }
    v.v2 = sip_xor_const(emitter, v.v2, 0xff, u64_ty);
    sip_rounds_ir(emitter, v, 8, u64_ty);
    let r01: IRVarId = sip_xor(emitter, v.v0, v.v1, u64_ty);
    let r23: IRVarId = sip_xor(emitter, v.v2, v.v3, u64_ty);
    sip_xor(emitter, r01, r23, u64_ty)
}

/// The state at the start.
fn sip_init_ir<E: IrEmitter>(emitter: &mut E, k0: IRVarId, k1: IRVarId, u64_ty: IRTypeId) -> (r:
    SipVars)
    requires
        old(emitter).state().has_room(4),
    ensures
        (final(emitter).state(), r) == init_ir(old(emitter).state(), k0, k1, u64_ty),
        grown(old(emitter).state(), final(emitter).state(), 4),
{
    let v0: IRVarId = sip_xor_const(emitter, k0, SIP_C0, u64_ty);
    let v1: IRVarId = sip_xor_const(emitter, k1, SIP_C1, u64_ty);
    let v2: IRVarId = sip_xor_const(emitter, k0, SIP_C2, u64_ty);
    let v3: IRVarId = sip_xor_const(emitter, k1, SIP_C3, u64_ty);
    SipVars { v0, v1, v2, v3 }
}

impl IrHashAlgorithm for SipHash48 {
    open spec fn key_types(&self) -> Seq<IrTypeView> {
        seq![u64_view(), u64_view()]
    }

    open spec fn output_type(&self) -> IrTypeView {
        u64_view()
    }

    open spec fn label(&self) -> Seq<char> {
        "siphash48"@
    }

    open spec fn digest(&self, key: Seq<Seq<u8>>, words: Seq<Seq<u8>>) -> Seq<u8> {
        le_bytes(sip_hash(word64(key[0]), word64(key[1]), words) as nat, 8)
    }

    open spec fn emission(
        &self,
        e: EmitterView,
        key: Seq<(IRVarId, IRTypeId)>,
        words: Seq<(IRVarId, IRTypeId)>,
    ) -> (EmitterView, IRVarId) {
        let ty = e.type_id(u64_view());
        let (e1, v) = init_ir(e.with_type(u64_view()), key[0].0, key[1].0, ty);
        let (e2, w) = if words.len() == 0 {
            compress_ir(e1.push(StmtView::Const(zero_constant(), ty)), v, e1.next(), ty)
        } else {
            absorb_ir(e1, v, words, words.len(), ty)
        };
        finish_ir(e2, w, ty)
    }

    open spec fn emission_room(&self, n: nat) -> nat {
        8344 + 4172 * (n + 1)
    }

    fn emit_ir<E: IrEmitter>(
        &self,
        emitter: &mut E,
        key_vars: &Vec<(IRVarId, IRTypeId)>,
        inputs: &Vec<(IRVarId, IRTypeId)>,
    ) -> (r: IRVarId) {
        let ghost e0 = emitter.state();
        let u64_ty: IRTypeId = emitter.intern_type(IrType::Primitive(Type::_64));
        let mut v = sip_init_ir(emitter, key_vars[0].0, key_vars[1].0, u64_ty);
        let ghost e1 = emitter.state();
        let ghost v1 = v;
        let n: usize = inputs.len();
        if n == 0 {
            let zero: IRVarId = emitter.emit(Stmt::Const(Constant { hi: 0, lo: 0 }, u64_ty));
            sip_compress_ir(emitter, &mut v, zero, u64_ty);
        } else {
            let tag: u64 = length_byte(n);
            let mut i: usize = 0;
            while i < n
                invariant
                    i <= n,
                    n == inputs@.len(),
                    tag == length_tag(n as nat),
                    e1.has_room(8340 + 4172 * (n as nat + 1)),
                    (emitter.state(), v) == absorb_ir(e1, v1, inputs@, i as nat, u64_ty),
                    grown(e1, emitter.state(), 4172 * i as nat),
                decreases n - i,
            {
                let (var, src_ty) = inputs[i];
                let m: IRVarId = if src_ty == u64_ty {
                    var
                } else {
                    emitter.emit(Stmt::Transmute { src: var, src_ty, dst_ty: u64_ty })
                };
                let block: IRVarId = if i + 1 == n {
                    sip_xor_const(emitter, m, tag, u64_ty)
                } else {
                    m
                };
                sip_compress_ir(emitter, &mut v, block, u64_ty);
                i += 1;
            }
        }
        sip_finalize_ir(emitter, &mut v, u64_ty)
    }

    fn output_type_id(&self, types: &mut TypeTable) -> (r: IRTypeId) {
        types.intern(IrType::Primitive(Type::_64))
    }

    fn hash_bytes_native(&self, key_words: &Vec<Vec<u8>>, inputs: &Vec<Vec<u8>>) -> (r: Vec<u8>) {
        let ghost words = word_views(inputs@);
        let ghost message = sip_message(words);
        let k0: u64 = le_bytes_to_u64(&key_words[0]);
        let k1: u64 = le_bytes_to_u64(&key_words[1]);
        let mut v = SipWords {
            v0: k0 ^ SIP_C0,
            v1: k1 ^ SIP_C1,
            v2: k0 ^ SIP_C2,
            v3: k1 ^ SIP_C3,
        };
        let ghost v1 = v;
        let n: usize = inputs.len();
        let tag: u64 = length_byte(n);
        if n == 0 {
            sip_compress_native(&mut v, tag);
            proof {
                assert(message.drop_last() =~= Seq::empty());
                assert(sip_absorb(v1, message.drop_last()) == v1);
                assert(message.last() == tag);
            }
        } else {
            let mut i: usize = 0;
            assert(message.take(0) =~= Seq::empty());
            while i < n
                invariant
                    i <= n,
                    n == inputs@.len(),
                    n > 0,
                    words == word_views(inputs@),
                    message == sip_message(words),
                    tag == length_tag(n as nat),
                    v == sip_absorb(v1, message.take(i as int)),
                decreases n - i,
            {
                proof {
                    assert(message.take(i + 1).drop_last() =~= message.take(i as int));
                    assert(message.take(i + 1).last() == message[i as int]);
                    assert(words[i as int] == inputs@[i as int]@);
                }
                let m: u64 = le_bytes_to_u64(&inputs[i]);
                let block: u64 = if i + 1 == n {
                    m ^ tag
                } else {
                    m
                };
                sip_compress_native(&mut v, block);
                i += 1;
            }
            assert(message.take(i as int) =~= message);
        }
        assert(v == sip_absorb(v1, message));
        assert(word_views(key_words@)[0] == key_words@[0]@);
        assert(word_views(key_words@)[1] == key_words@[1]@);
        v.v2 = v.v2 ^ 0xff;
        sip_rounds_native(&mut v, 8);
        let result: u64 = ((v.v0 ^ v.v1) ^ v.v2) ^ v.v3;
        to_le_bytes(result as u128, 8)
    }

    fn key_schema(&self) -> (r: Vec<IrType>) {
        let mut r: Vec<IrType> = Vec::new();
        r.push(IrType::Primitive(Type::_64));
        r.push(IrType::Primitive(Type::_64));
        assert(type_views(r@) =~= seq![u64_view(), u64_view()]);
        r
    }

    fn name(&self) -> (r: &str) {
        "siphash48"
    }

    fn internal_oracle_decls(&self, types: &mut TypeTable) -> (r: Vec<OracleDecl>) {
        Vec::new()
    }
}

} // verus!
