//! Hash algorithms that commit to the rows of a bytecode table.
//!
//! An algorithm comes twice: as a computation on bytes, and as statements that
//! compute the same on the values of a block.

use vstd::prelude::*;

use crate::common::{
    interned, interned_index, Constant, IrType, IrTypeView, OracleDecl, StorageId, Type,
    TypeTable,
};
use crate::ir::{IRBlockView, IRStmt, IRTypeId, IRVarId, StmtView};

verus! {

// ---------------------------------------------------------------------------
// Emitters
// ---------------------------------------------------------------------------

/// A block under construction and the types of its module.
#[verifier::ext_equal]
pub struct EmitterView {
    pub block: IRBlockView,
    pub types: Seq<IrTypeView>,
    pub addr_ty: IRTypeId,
    pub bit_ty: IRTypeId,
}

impl EmitterView {
    /// With a statement appended.
    pub open spec fn push(self, s: StmtView) -> EmitterView {
        EmitterView {
            block: IRBlockView { stmts: self.block.stmts.push(s), ..self.block },
            ..self
        }
    }

    /// The variable that the next statement defines.
    pub open spec fn next(self) -> IRVarId {
        IRVarId(self.block.var_space() as u32)
    }

    /// With a type interned.
    pub open spec fn with_type(self, ty: IrTypeView) -> EmitterView {
        EmitterView { types: interned(self.types, ty), ..self }
    }

    /// The index of a type that was interned.
    pub open spec fn type_id(self, ty: IrTypeView) -> IRTypeId {
        crate::common::TypeId(interned_index(self.types, ty) as u32)
    }

    /// Whether `n` more statements fit.
    pub open spec fn has_room(self, n: nat) -> bool {
        self.block.var_space() + n <= u32::MAX
    }
}

/// Builds a block, statement by statement.
pub trait IrEmitter: Sized {
    /// What has been built.
    spec fn state(&self) -> EmitterView;

    /// Append a statement and return the variable that it defines.
    fn emit(&mut self, stmt: IRStmt) -> (id: IRVarId)
        requires
            old(self).state().has_room(1),
        ensures
            final(self).state() == old(self).state().push(stmt@),
            id == old(self).state().next(),
    ;

    /// Intern a type.
    fn intern_type(&mut self, ty: IrType) -> (id: IRTypeId)
        requires
            old(self).state().types.len() < u32::MAX,
        ensures
            final(self).state() == old(self).state().with_type(ty@),
            id == old(self).state().type_id(ty@),
    ;

    /// The type of addresses.
    fn addr_ty(&self) -> (r: IRTypeId)
        ensures
            r == self.state().addr_ty,
    ;

    /// The type of bits.
    fn bit_ty(&self) -> (r: IRTypeId)
        ensures
            r == self.state().bit_ty,
    ;
}

// ---------------------------------------------------------------------------
// Algorithms
// ---------------------------------------------------------------------------

/// The views of a list of words.
pub open spec fn word_views(s: Seq<Vec<u8>>) -> Seq<Seq<u8>> {
    s.map_values(|w: Vec<u8>| w@)
}

/// A hash algorithm, on bytes and as statements.
pub trait IrHashAlgorithm: Sized {
    /// The types of the key words.
    spec fn key_types(&self) -> Seq<IrTypeView>;

    /// The type of the hash.
    spec fn output_type(&self) -> IrTypeView;

    /// What the algorithm is called.
    spec fn label(&self) -> Seq<char>;

    /// The hash of words under a key, in little-endian order.
    spec fn digest(&self, key: Seq<Seq<u8>>, words: Seq<Seq<u8>>) -> Seq<u8>;

    /// The block after the statements that compute the hash, and the variable
    /// that holds it.
    spec fn emission(
        &self,
        e: EmitterView,
        key: Seq<(IRVarId, IRTypeId)>,
        words: Seq<(IRVarId, IRTypeId)>,
    ) -> (EmitterView, IRVarId);

    /// A bound on the number of statements that compute the hash of `n` words.
    spec fn emission_room(&self, n: nat) -> nat;

    /// Append statements that compute the hash.
    fn emit_ir<E: IrEmitter>(
        &self,
        emitter: &mut E,
        key_vars: &Vec<(IRVarId, IRTypeId)>,
        inputs: &Vec<(IRVarId, IRTypeId)>,
    ) -> (r: IRVarId)
        requires
            key_vars@.len() == self.key_types().len(),
            old(emitter).state().has_room(self.emission_room(inputs@.len())),
            old(emitter).state().types.len() < u32::MAX,
        ensures
            (final(emitter).state(), r) == self.emission(
                old(emitter).state(),
                key_vars@,
                inputs@,
            ),
            final(emitter).state().block.var_space() <= old(emitter).state().block.var_space()
                + self.emission_room(inputs@.len()),
            final(emitter).state().block.params == old(emitter).state().block.params,
            final(emitter).state().block.terminator == old(emitter).state().block.terminator,
            final(emitter).state().addr_ty == old(emitter).state().addr_ty,
            final(emitter).state().bit_ty == old(emitter).state().bit_ty,
            old(emitter).state().types.len() <= final(emitter).state().types.len(),
            final(emitter).state().types.len() <= old(emitter).state().types.len() + 1,
    ;

    /// The type of the hash.
    fn output_type_id(&self, types: &mut TypeTable) -> (r: IRTypeId)
        requires
            old(types)@.len() < u32::MAX,
        ensures
            final(types)@ == interned(old(types)@, self.output_type()),
            r.0 == interned_index(old(types)@, self.output_type()),
    ;

    /// The hash of words under a key.
    fn hash_bytes_native(&self, key_words: &Vec<Vec<u8>>, inputs: &Vec<Vec<u8>>) -> (r: Vec<u8>)
        requires
            key_words@.len() == self.key_types().len(),
        ensures
            r@ == self.digest(word_views(key_words@), word_views(inputs@)),
    ;

    /// The types of the key words.
    fn key_schema(&self) -> (r: Vec<IrType>)
        ensures
            crate::common::type_views(r@) == self.key_types(),
    ;

    /// What the algorithm is called.
    fn name(&self) -> (r: &str)
        ensures
            r@ == self.label(),
    ;

    /// The oracles that the statements call.
    fn internal_oracle_decls(&self, types: &mut TypeTable) -> (r: Vec<OracleDecl>)
        ensures
            r@.len() == 0,
            final(types)@ == old(types)@,
    ;
}

/// How rows are committed to.
pub struct CommitmentConfig<H: IrHashAlgorithm> {
    pub algorithm: H,
    /// Where the hash of each row stands.
    pub commitment_storage: StorageId,
    /// The key, one value for each key word of the algorithm.
    pub key: Vec<Constant>,
    /// Where handlers find the key.
    pub key_storage: Option<StorageId>,
}

// ---------------------------------------------------------------------------
// Little-endian words
// ---------------------------------------------------------------------------

/// The `n` low bytes of a number, least significant first.
pub open spec fn le_bytes(x: nat, n: nat) -> Seq<u8>
    decreases n,
{
    if n == 0 {
        Seq::empty()
    } else {
        seq![(x % 256) as u8] + le_bytes(x / 256, (n - 1) as nat)
    }
}

/// The number that bytes denote, least significant first.
pub open spec fn le_value(s: Seq<u8>) -> nat
    decreases s.len(),
{
    if s.len() == 0 {
        0
    } else {
        s[0] as nat + 256 * le_value(s.drop_first())
    }
}

/// There are as many bytes as were asked for.
pub proof fn lemma_le_bytes_len(x: nat, n: nat)
    ensures
        le_bytes(x, n).len() == n,
    decreases n,
{
    if n > 0 {
        lemma_le_bytes_len(x / 256, (n - 1) as nat);
    }
}

/// `n` bytes denote less than the `n`-th power of 256.
pub open spec fn pow256(n: nat) -> nat
    decreases n,
{
    if n == 0 {
        1
    } else {
        256 * pow256((n - 1) as nat)
    }
}

/// The bytes of a number denote the number, as far as they reach.
pub proof fn law_le_value_of_bytes(x: nat, n: nat)
    ensures
        le_value(le_bytes(x, n)) == x % pow256(n),
        le_value(le_bytes(x, n)) < pow256(n),
        pow256(n) > 0,
    decreases n,
{
    if n > 0 {
        law_le_value_of_bytes(x / 256, (n - 1) as nat);
        let s = le_bytes(x, n);
        let rest = le_bytes(x / 256, (n - 1) as nat);
        assert(s.drop_first() =~= rest);
        let p = pow256((n - 1) as nat);
        assert(x % (256 * p) == x % 256 + 256 * ((x / 256) % p)) by (nonlinear_arith)
            requires
                p > 0,
        {
            let q = (x / 256) / p;
            let r = (x / 256) % p;
            assert(x / 256 == p * q + r && 0 <= r < p);
            assert(x == 256 * (x / 256) + x % 256);
            assert(x == (256 * p) * q + (256 * r + x % 256));
            assert(0 <= 256 * r + x % 256 < 256 * p);
            vstd::arithmetic::div_mod::lemma_fundamental_div_mod_converse(
                x as int,
                (256 * p) as int,
                q as int,
                (256 * r + x % 256) as int,
            );
        }
    } else {
        assert(x % 1 == 0);
    }
}

/// The `n` low bytes of a number.
pub fn to_le_bytes(x: u128, n: usize) -> (r: Vec<u8>)
    ensures
        r@ == le_bytes(x as nat, n as nat),
{
    let mut out: Vec<u8> = Vec::new();
    let mut rest: u128 = x;
    let mut i: usize = 0;
    assert(out@ + le_bytes(x as nat, n as nat) =~= le_bytes(x as nat, n as nat));
    while i < n
        invariant
            i <= n,
            out@ + le_bytes(rest as nat, (n - i) as nat) == le_bytes(x as nat, n as nat),
        decreases n - i,
    {
        let byte: u8 = (rest % 256) as u8;
        proof {
            let tail = le_bytes((rest / 256) as nat, (n - i - 1) as nat);
            assert(out@ + (seq![byte] + tail) =~= out@.push(byte) + tail);
        }
        out.push(byte);
        rest = rest / 256;
        i += 1;
    }
    assert(out@ + le_bytes(rest as nat, 0) =~= out@);
    out
}

/// The value of a suffix is below a power of 256.
proof fn lemma_le_value_bound(s: Seq<u8>)
    ensures
        le_value(s) < pow256(s.len()),
    decreases s.len(),
{
    if s.len() > 0 {
        lemma_le_value_bound(s.drop_first());
    }
}

/// Larger powers are larger.
proof fn lemma_pow256_mono(a: nat, b: nat)
    requires
        a <= b,
    ensures
        pow256(a) <= pow256(b),
    decreases b,
{
    if a < b {
        lemma_pow256_mono(a, (b - 1) as nat);
    }
}

/// The number that the bytes from `start` on denote, at most `n` of them.
pub fn from_le_bytes(bytes: &Vec<u8>, start: usize, n: usize) -> (r: u128)
    requires
        start <= bytes@.len(),
        n <= 16,
    ensures
        r == le_value(bytes@.skip(start as int).take(min_len(bytes@.len() - start, n as int))),
{
    let len: usize = if bytes.len() - start < n {
        bytes.len() - start
    } else {
        n
    };
    let ghost s = bytes@.skip(start as int).take(len as int);
    let mut acc: u128 = 0;
    let mut i: usize = len;
    assert(s.skip(len as int) =~= Seq::empty());
    while i > 0
        invariant
            i <= len,
            len <= 16,
            len <= n,
            start + len <= bytes.len(),
            s == bytes@.skip(start as int).take(len as int),
            acc == le_value(s.skip(i as int)),
        decreases i,
    {
        proof {
            let t = s.skip(i - 1);
            assert(t.drop_first() =~= s.skip(i as int));
            assert(t[0] == bytes@[start + i - 1]);
            lemma_le_value_bound(t);
            lemma_pow256_mono(t.len(), 16);
            assert(pow256(16) == 0x1_0000_0000_0000_0000_0000_0000_0000_0000) by {
                reveal_with_fuel(pow256, 17);
            }
        }
        acc = acc * 256 + bytes[start + i - 1] as u128;
        i -= 1;
    }
    assert(s.skip(0) =~= s);
    acc
}

/// The smaller of two lengths.
pub open spec fn min_len(a: int, b: int) -> int {
    if a < b {
        a
    } else {
        b
    }
}

/// The bytes of a constant of the given type.
pub open spec fn constant_bytes(c: Constant, ty: IrTypeView) -> Seq<u8> {
    match ty {
        IrTypeView::Primitive(Type::Bit) => seq![(c.lo % 2) as u8],
        IrTypeView::Primitive(Type::_8) => le_bytes(c.lo as nat, 1),
        IrTypeView::Primitive(Type::_16) => le_bytes(c.lo as nat, 2),
        IrTypeView::Primitive(Type::_32) => le_bytes(c.lo as nat, 4),
        IrTypeView::Primitive(Type::_64) => le_bytes(c.lo as nat, 8),
        IrTypeView::Primitive(Type::_128) => le_bytes(c.lo as nat, 16),
        IrTypeView::Primitive(Type::_256) => le_bytes(c.lo as nat, 16) + le_bytes(c.hi as nat, 16),
        _ => le_bytes(c.lo as nat, 4),
    }
}

/// The bytes of a constant of the given type, least significant first.
pub fn constant_to_le_bytes(c: &Constant, ty: &IrType) -> (r: Vec<u8>)
    ensures
        r@ == constant_bytes(*c, ty@),
{
    match ty {
        IrType::Primitive(Type::Bit) => {
            let mut out: Vec<u8> = Vec::new();
            out.push((c.lo % 2) as u8);
            assert(out@ =~= seq![(c.lo % 2) as u8]);
            out
        },
        IrType::Primitive(Type::_8) => to_le_bytes(c.lo, 1),
        IrType::Primitive(Type::_16) => to_le_bytes(c.lo, 2),
        IrType::Primitive(Type::_32) => to_le_bytes(c.lo, 4),
        IrType::Primitive(Type::_64) => to_le_bytes(c.lo, 8),
        IrType::Primitive(Type::_128) => to_le_bytes(c.lo, 16),
        IrType::Primitive(Type::_256) => {
            let mut out = to_le_bytes(c.lo, 16);
            let mut hi = to_le_bytes(c.hi, 16);
            out.append(&mut hi);
            out
        },
        _ => to_le_bytes(c.lo, 4),
    }
}

/// The constant that bytes denote: the first half in the low word, the second
/// half in the high word.
pub open spec fn constant_of_bytes(s: Seq<u8>) -> Constant {
    Constant {
        lo: le_value(s.take(min_len(s.len() as int, 16))) as u128,
        hi: if s.len() > 16 {
            le_value(s.skip(16).take(min_len(s.len() - 16, 16))) as u128
        } else {
            0
        },
    }
}

/// The constant that bytes denote.
pub fn bytes_to_constant(bytes: &Vec<u8>) -> (r: Constant)
    ensures
        r == constant_of_bytes(bytes@),
{
    let lo: u128 = from_le_bytes(bytes, 0, 16);
    assert(bytes@.skip(0) =~= bytes@);
    let hi: u128 = if bytes.len() > 16 {
        from_le_bytes(bytes, 16, 16)
    } else {
        0
    };
    Constant { hi, lo }
}

/// A constant that is a value of its type comes back from its bytes.
pub proof fn law_constant_bytes_round_trip(c: Constant, ty: Type)
    requires
        match ty {
            Type::Bit => c.lo < 2 && c.hi == 0,
            Type::_8 => c.lo < 0x100 && c.hi == 0,
            Type::_16 => c.lo < 0x1_0000 && c.hi == 0,
            Type::_32 => c.lo < 0x1_0000_0000 && c.hi == 0,
            Type::_64 => c.lo < 0x1_0000_0000_0000_0000 && c.hi == 0,
            Type::_128 => c.hi == 0,
            Type::_256 => true,
            _ => c.lo < 0x1_0000_0000 && c.hi == 0,
        },
    ensures
        constant_of_bytes(constant_bytes(c, IrTypeView::Primitive(ty))) == c,
{
    let s = constant_bytes(c, IrTypeView::Primitive(ty));
    let n: nat = match ty {
        Type::Bit => 1,
        Type::_8 => 1,
        Type::_16 => 2,
        Type::_32 => 4,
        Type::_64 => 8,
        Type::_128 => 16,
        Type::_256 => 16,
        _ => 4,
    };
    assert(pow256(n) > c.lo) by {
        reveal_with_fuel(pow256, 17);
    }
    law_le_value_of_bytes(c.lo as nat, n);
    lemma_le_bytes_len(c.lo as nat, n);
    vstd::arithmetic::div_mod::lemma_small_mod(c.lo as nat, pow256(n));
    if ty == Type::Bit {
        assert(le_bytes(c.lo as nat, 1) =~= s) by {
            reveal_with_fuel(le_bytes, 2);
        }
    }
    if ty == Type::_256 {
        lemma_le_bytes_len(c.hi as nat, 16);
        law_le_value_of_bytes(c.hi as nat, 16);
        assert(pow256(16) > c.hi) by {
            reveal_with_fuel(pow256, 17);
        }
        vstd::arithmetic::div_mod::lemma_small_mod(c.hi as nat, pow256(16));
        assert(s.take(16) =~= le_bytes(c.lo as nat, 16));
        assert(s.skip(16).take(16) =~= le_bytes(c.hi as nat, 16));
    } else {
        assert(s.take(s.len() as int) =~= s);
    }
}

} // verus!
