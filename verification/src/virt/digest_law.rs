//! The hashes, step by step.

use vstd::prelude::*;

use crate::common::{Constant, IrTypeView, Type};
use crate::virt::hash::{
    constant_bytes, constant_of_bytes, law_le_value_of_bytes, le_bytes, le_value, pow256,
    IrHashAlgorithm,
};
use crate::virt::hash_sip::{
    sip_absorb, sip_compress, sip_finish, sip_hash, sip_init, sip_message, sip_round, sip_rounds,
    word64, SipHash48, SipWords,
};
use crate::virt::hash_xor::{word32, xor_fold, XorFoldHash32};

verus! {

// ---------------------------------------------------------------------------
// Bytes
// ---------------------------------------------------------------------------

/// Bytes are in little-endian order.
pub proof fn law_little_endian(b: u8, s: Seq<u8>, x: nat, n: nat)
    ensures
        le_value(Seq::empty()) == 0,
        le_value(seq![b] + s) == b + 256 * le_value(s),
        le_bytes(x, n).len() == n,
        n > 0 ==> le_bytes(x, n)[0] == x % 256,
{
    let t = seq![b] + s;
    assert(t.drop_first() =~= s);
    lemma_bytes_len(x, n);
}

proof fn lemma_bytes_len(x: nat, n: nat)
    ensures
        le_bytes(x, n).len() == n,
    decreases n,
{
    if n > 0 {
        lemma_bytes_len(x / 256, (n - 1) as nat);
    }
}

/// How many bytes a constant of a type has.
pub proof fn law_constant_width(c: Constant, t: Type)
    ensures
        constant_bytes(c, IrTypeView::Primitive(t)).len() == match t {
            Type::Bit => 1int,
            Type::_8 => 1,
            Type::_16 => 2,
            Type::_32 => 4,
            Type::_64 => 8,
            Type::_128 => 16,
            Type::_256 => 32,
            Type::AES8 => 4,
            Type::Galois64 => 4,
            Type::Z3 => 4,
        },
{
    lemma_bytes_len(c.lo as nat, 1);
    lemma_bytes_len(c.lo as nat, 2);
    lemma_bytes_len(c.lo as nat, 4);
    lemma_bytes_len(c.lo as nat, 8);
    lemma_bytes_len(c.lo as nat, 16);
    lemma_bytes_len(c.hi as nat, 16);
}

/// Bytes are read as a constant: the first sixteen are its low half, the next
/// sixteen its high half.
pub proof fn law_constant_of_bytes(s: Seq<u8>)
    ensures
        s.len() <= 16 ==> constant_of_bytes(s).lo == le_value(s) && constant_of_bytes(s).hi == 0,
        16 < s.len() <= 32 ==> constant_of_bytes(s).lo == le_value(s.take(16))
            && constant_of_bytes(s).hi == le_value(s.skip(16)),
        s.len() > 32 ==> constant_of_bytes(s) == constant_of_bytes(s.take(32)),
{
    lemma_wide();
    if s.len() <= 16 {
        assert(s.take(s.len() as int) =~= s);
        lemma_below(s);
        lemma_grows(s.len(), 16);
    } else {
        lemma_below(s.take(16));
        if s.len() <= 32 {
            assert(s.skip(16).take(s.len() - 16) =~= s.skip(16));
            lemma_below(s.skip(16));
            lemma_grows((s.len() - 16) as nat, 16);
        } else {
            let t = s.take(32);
            assert(t.take(16) =~= s.take(16));
            assert(t.skip(16).take(16) =~= s.skip(16).take(16));
        }
    }
}

proof fn lemma_wide()
    ensures
        pow256(16) == 0x1_0000_0000_0000_0000_0000_0000_0000_0000,
{
    reveal_with_fuel(pow256, 17);
}

// ---------------------------------------------------------------------------
// The folding hash
// ---------------------------------------------------------------------------

/// A word is folded in by exclusive or and a rotation by 13 places; of a word
/// the first four bytes count.
pub proof fn law_fold_step(seed: u32, words: Seq<Seq<u8>>, w: Seq<u8>)
    ensures
        xor_fold(seed, Seq::empty()) == seed,
        ({
            let x = xor_fold(seed, words) ^ word32(w);
            xor_fold(seed, words.push(w)) == (x << 13) | (x >> 19)
        }),
        w.len() >= 4 ==> word32(w) == w[0] + 0x100 * w[1] + 0x1_0000 * w[2] + 0x100_0000 * w[3],
        w.len() == 3 ==> word32(w) == w[0] + 0x100 * w[1] + 0x1_0000 * w[2],
        w.len() == 2 ==> word32(w) == w[0] + 0x100 * w[1],
        w.len() == 1 ==> word32(w) == w[0],
        w.len() == 0 ==> word32(w) == 0,
{
    assert(words.push(w).drop_last() =~= words);
    let n = if w.len() < 4 {
        w.len() as int
    } else {
        4
    };
    let t = w.take(n);
    reveal_with_fuel(le_value, 5);
    if n >= 1 {
        assert(t[0] == w[0]);
        if n >= 2 {
            assert(t.drop_first()[0] == w[1]);
            if n >= 3 {
                assert(t.drop_first().drop_first()[0] == w[2]);
                if n >= 4 {
                    assert(t.drop_first().drop_first().drop_first()[0] == w[3]);
                    assert(t.drop_first().drop_first().drop_first().drop_first().len() == 0);
                }
            }
        }
    }
}

/// What the folding hash is called and gives: four bytes, without a key.
pub proof fn law_fold_digest(alg: XorFoldHash32, key: Seq<Seq<u8>>, words: Seq<Seq<u8>>)
    ensures
        alg.label() == "xorfold32"@,
        alg.key_types().len() == 0,
        alg.output_type() == IrTypeView::Primitive(Type::_32),
        alg.digest(key, words).len() == 4,
        le_value(alg.digest(key, words)) == xor_fold(alg.seed, words),
{
    let x = xor_fold(alg.seed, words) as nat;
    law_le_value_of_bytes(x, 4);
    lemma_bytes_len(x, 4);
    reveal_with_fuel(pow256, 5);
    assert(pow256(4) == 0x1_0000_0000);
}

// ---------------------------------------------------------------------------
// The keyed hash
// ---------------------------------------------------------------------------

/// One round.
pub proof fn law_sip_round(v: SipWords)
    ensures
        ({
            let a0 = ((v.v0 + v.v1) % 0x1_0000_0000_0000_0000) as u64;
            let a1 = ((v.v1 << 13) | (v.v1 >> 51)) ^ a0;
            let b0 = (a0 << 32) | (a0 >> 32);
            let a2 = ((v.v2 + v.v3) % 0x1_0000_0000_0000_0000) as u64;
            let a3 = ((v.v3 << 16) | (v.v3 >> 48)) ^ a2;
            let c0 = ((b0 + a3) % 0x1_0000_0000_0000_0000) as u64;
            let c3 = ((a3 << 21) | (a3 >> 43)) ^ c0;
            let c2 = ((a2 + a1) % 0x1_0000_0000_0000_0000) as u64;
            let c1 = ((a1 << 17) | (a1 >> 47)) ^ c2;
            sip_round(v) == (SipWords { v0: c0, v1: c1, v2: (c2 << 32) | (c2 >> 32), v3: c3 })
        }),
{
    reveal(sip_round);
}

/// A word of the message goes in before four rounds and out behind them.
pub proof fn law_sip_compress(v: SipWords, m: u64)
    ensures
        ({
            let w = sip_round(
                sip_round(
                    sip_round(
                        sip_round(SipWords { v0: v.v0, v1: v.v1, v2: v.v2, v3: v.v3 ^ m }),
                    ),
                ),
            );
            sip_compress(v, m) == (SipWords { v0: w.v0 ^ m, v1: w.v1, v2: w.v2, v3: w.v3 })
        }),
{
    reveal(sip_compress);
    let r0 = SipWords { v0: v.v0, v1: v.v1, v2: v.v2, v3: v.v3 ^ m };
    let r1 = sip_round(r0);
    let r2 = sip_round(r1);
    let r3 = sip_round(r2);
    assert(r0 == SipWords { v3: v.v3 ^ m, ..v });
    assert(sip_rounds(r0, 0) == r0);
    assert(sip_rounds(r0, 1) == r1);
    assert(sip_rounds(r0, 2) == r2);
    assert(sip_rounds(r0, 3) == r3);
    assert(sip_rounds(r0, 4) == sip_round(r3));
}

/// There are eight rounds at the end.
pub proof fn law_sip_finish(v: SipWords)
    ensures
        ({
            let a = sip_round(
                sip_round(
                    sip_round(
                        sip_round(SipWords { v0: v.v0, v1: v.v1, v2: v.v2 ^ 0xff, v3: v.v3 }),
                    ),
                ),
            );
            let b = sip_round(sip_round(sip_round(sip_round(a))));
            sip_finish(v) == b.v0 ^ b.v1 ^ b.v2 ^ b.v3
        }),
{
    reveal_with_fuel(sip_rounds, 9);
}

/// The words at the start are those of the key and of the text
/// `somepseudorandomlygeneratedbytes`.
pub proof fn law_sip_start(k0: u64, k1: u64)
    ensures
        sip_init(k0, k1) == (SipWords {
            v0: k0 ^ 0x736f6d6570736575,
            v1: k1 ^ 0x646f72616e646f6d,
            v2: k0 ^ 0x6c7967656e657261,
            v3: k1 ^ 0x7465646279746573,
        }),
{
}

/// The message is the words, and eight times their number in the highest byte of
/// the last one; without words it is that number alone.
pub proof fn law_sip_message(words: Seq<Seq<u8>>, i: int)
    ensures
        words.len() == 0 ==> sip_message(words) == seq![0u64],
        words.len() > 0 ==> sip_message(words).len() == words.len(),
        0 <= i < words.len() - 1 ==> sip_message(words)[i] == word64(words[i]),
        i == words.len() - 1 && i >= 0 ==> sip_message(words)[i] == word64(words[i]) ^ ((((8
            * words.len()) % 256) as u64) << 56),
{
    assert(0u64 << 56 == 0) by (bit_vector);
}

/// The words of the message go in one after the other.
pub proof fn law_sip_absorb(v: SipWords, words: Seq<u64>, m: u64)
    ensures
        sip_absorb(v, Seq::empty()) == v,
        sip_absorb(v, words.push(m)) == sip_compress(sip_absorb(v, words), m),
{
    assert(words.push(m).drop_last() =~= words);
}

/// What the keyed hash is called and gives: eight bytes under two words of key.
pub proof fn law_sip_digest(alg: SipHash48, key: Seq<Seq<u8>>, words: Seq<Seq<u8>>)
    ensures
        alg.label() == "siphash48"@,
        alg.key_types() == seq![
            IrTypeView::Primitive(Type::_64),
            IrTypeView::Primitive(Type::_64),
        ],
        alg.output_type() == IrTypeView::Primitive(Type::_64),
        alg.digest(key, words).len() == 8,
        le_value(alg.digest(key, words)) == sip_finish(
            sip_absorb(sip_init(word64(key[0]), word64(key[1])), sip_message(words)),
        ),
{
    let x = sip_hash(word64(key[0]), word64(key[1]), words) as nat;
    law_le_value_of_bytes(x, 8);
    lemma_bytes_len(x, 8);
    reveal_with_fuel(pow256, 9);
    assert(pow256(8) == 0x1_0000_0000_0000_0000);
}

/// Of a word the first eight bytes count.
pub proof fn law_sip_word(w: Seq<u8>)
    ensures
        w.len() >= 8 ==> word64(w) == le_value(w.take(8)) && le_value(w.take(8)) <= u64::MAX,
        w.len() < 8 ==> word64(w) == le_value(w) && le_value(w) <= u64::MAX,
{
    reveal_with_fuel(pow256, 9);
    assert(pow256(8) == 0x1_0000_0000_0000_0000);
    if w.len() >= 8 {
        lemma_below(w.take(8));
    } else {
        lemma_below(w);
        lemma_grows(w.len(), 8);
        assert(w.take(w.len() as int) =~= w);
    }
}

proof fn lemma_below(s: Seq<u8>)
    ensures
        le_value(s) < pow256(s.len()),
    decreases s.len(),
{
    if s.len() > 0 {
        lemma_below(s.drop_first());
    }
}

proof fn lemma_grows(a: nat, b: nat)
    requires
        a <= b,
    ensures
        0 < pow256(a) <= pow256(b),
    decreases b,
{
    if a < b {
        lemma_grows(a, (b - 1) as nat);
    } else if a > 0 {
        lemma_grows((a - 1) as nat, (a - 1) as nat);
    }
}

} // verus!
