//! Statements as text.

use vstd::prelude::*;

use crate::common::{Constant, StorageId};
use crate::fmt::{dec, push_dec};
use crate::ir::{
    lemma_vars_order, vars_order, IRStmt, IRTypeId, IRVarId, PolyCoeffs, StmtView,
};
use crate::sorted::{assoc_insert, assoc_sorted, lemma_assoc_insert_last};
use crate::text::error::ParseError;
use crate::text::fields::{
    constant_text, field, get_constant, get_constant_field, get_name, get_storage_field,
    get_type_field, get_types_field, get_usize_field, get_var_field, get_var_id, get_vars,
    get_vars_field, lemma_blank_ends, lemma_constant_field, lemma_field_blank, lemma_fields_shrink,
    lemma_key, lemma_spaced_constant, lemma_spaced_name, lemma_storage_field, lemma_type_field,
    lemma_types_field, lemma_usize_field, lemma_values_shrink, lemma_var_field, lemma_var_id,
    lemma_vars, lemma_vars_field, name_text, put_constant_field, put_key, put_spaced_constant,
    put_spaced_name, put_storage_field, put_type_field, put_types_field, put_usize_field, put_var,
    put_var_field, put_vars_field, read_constant, read_constant_field, read_name,
    read_storage_field, read_type_field, read_types_field, read_usize_field, read_var_field,
    read_var_id, read_vars, read_vars_field, spaced, storage_text, type_text, types_text,
    usize_text, var_text, vars_text,
};
use crate::text::lexer::{
    get_char, get_ident, get_key, get_u32, gives, gives_view, group_shrinks, is_word, try_char,
    LexView, Lexer, Parsed,
};
use crate::text::pieces::{
    at_blank, at_token, is_name, lemma_at_token, lemma_char, lemma_dec, lemma_digits, lemma_joined,
    lemma_past_blank, lemma_word, reads,
};

verus! {

// ---------------------------------------------------------------------------
// Texts
// ---------------------------------------------------------------------------

/// The coefficients of a polynomial from coefficient `i` on.
pub open spec fn coeffs_text(cs: Seq<(Seq<IRVarId>, u8)>, i: int) -> Seq<char>
    decreases cs.len() - i,
{
    if i >= cs.len() {
        Seq::empty()
    } else {
        field("coeff"@, vars_text(cs[i].0)) + (seq![':'] + (dec(cs[i].1 as nat) + coeffs_text(
            cs,
            i + 1,
        )))
    }
}

/// A chosen bit.
pub open spec fn bit_text(b: (u8, IRVarId)) -> Seq<char> {
    seq!['('] + dec(b.0 as nat) + seq![','] + var_text(b.1) + seq![')']
}

/// The chosen bits from bit `i` on, each but the first behind a comma.
pub open spec fn bits_text(bits: Seq<(u8, IRVarId)>, i: int) -> Seq<char>
    decreases bits.len() - i,
{
    if i >= bits.len() {
        Seq::empty()
    } else {
        (if i == 0 {
            Seq::empty()
        } else {
            seq![',']
        }) + bit_text(bits[i]) + bits_text(bits, i + 1)
    }
}

/// A statement. What a store of action outputs does is not written.
#[verifier::opaque]
pub open spec fn stmt_text(s: StmtView) -> Seq<char> {
    match s {
        StmtView::Const(c, ty) => "const"@ + spaced(constant_text(c)) + field("ty"@, type_text(ty)),
        StmtView::StorageRead { storage, ty, addr } => "storage_read"@ + field("storage"@, storage_text(storage)) + field("ty"@, type_text(ty)) + field("addr"@, var_text(addr)),
        StmtView::StorageWrite { storage, src, ty, addr } => "storage_write"@ + field("storage"@, storage_text(storage)) + field("src"@, var_text(src)) + field("ty"@, type_text(ty)) + field("addr"@, var_text(addr)),
        StmtView::Transmute { src, src_ty, dst_ty } => "transmute"@ + field("src"@, var_text(src)) + field("src_ty"@, type_text(src_ty)) + field("dst_ty"@, type_text(dst_ty)),
        StmtView::Poly { ty, coeffs, constant } => "poly"@ + field("ty"@, type_text(ty)) + field(
            "const"@,
            constant_text(constant),
        ) + coeffs_text(coeffs, 0),
        StmtView::Rol { src, ty, n } => "rol"@ + field("src"@, var_text(src)) + field("ty"@, type_text(ty)) + field("n"@, usize_text(n)),
        StmtView::Ror { src, ty, n } => "ror"@ + field("src"@, var_text(src)) + field("ty"@, type_text(ty)) + field("n"@, usize_text(n)),
        StmtView::Merge { ty, parts } => "merge"@ + field("ty"@, type_text(ty)) + field("parts"@, vars_text(parts)),
        StmtView::Splat { src, ty } => "splat"@ + field("src"@, var_text(src)) + field("ty"@, type_text(ty)),
        StmtView::Shuffle { result_bits, ty } => "shuffle"@ + field("ty"@, type_text(ty)) + field(
            "bits"@,
            seq!['['] + bits_text(result_bits, 0) + seq![']'],
        ),
        StmtView::OracleCall { name, args, output_tys, result_ty } => "oracle_call"@ + spaced(name_text(name)) + field("args"@, vars_text(args)) + field("out_tys"@, types_text(output_tys)) + field("result_ty"@, type_text(result_ty)),
        StmtView::OracleOutput { call, idx, ty } => "oracle_output"@ + field("call"@, var_text(call)) + field("idx"@, usize_text(idx)) + field("ty"@, type_text(ty)),
        StmtView::ActionCall { name, guard, args, fallbacks, output_tys, result_ty } => "action_call"@ + spaced(name_text(name)) + field("guard"@, var_text(guard)) + field("args"@, vars_text(args)) + field("fallbacks"@, vars_text(fallbacks)) + field("out_tys"@, types_text(output_tys)) + field("result_ty"@, type_text(result_ty)),
        StmtView::ActionOutput { call, idx, ty } => "action_output"@ + field("call"@, var_text(call)) + field("idx"@, usize_text(idx)) + field("ty"@, type_text(ty)),
        StmtView::Rng { name, ty } => "rng"@ + spaced(name_text(name)) + field("ty"@, type_text(ty)),
        StmtView::ActionStore { .. } => "<unknown-stmt>"@,
    }
}

/// Whether a statement can be read back: sizes fit 32 bits, coefficients are
/// in order, and it is not a store of action outputs.
#[verifier::opaque]
pub open spec fn stmt_writable(s: StmtView) -> bool {
    match s {
        StmtView::Poly { coeffs, .. } => assoc_sorted(coeffs, vars_order()),
        StmtView::Rol { n, .. } => n <= u32::MAX,
        StmtView::Ror { n, .. } => n <= u32::MAX,
        StmtView::OracleOutput { idx, .. } => idx <= u32::MAX,
        StmtView::ActionOutput { idx, .. } => idx <= u32::MAX,
        StmtView::ActionStore { .. } => false,
        _ => true,
    }
}

fn put_coeffs(w: &mut String, coeffs: &PolyCoeffs)
    ensures
        final(w)@ == old(w)@ + coeffs_text(coeffs@, 0),
{
    broadcast use lemma_joined;

    let ghost cs = coeffs@;
    let ghost before = w@;
    let mut i: usize = 0;
    while i < coeffs.terms.len()
        invariant
            i <= coeffs.terms@.len(),
            cs == coeffs@,
            w@ + coeffs_text(cs, i as int) == before + coeffs_text(cs, 0),
        decreases coeffs.terms@.len() - i,
    {
        broadcast use lemma_joined;

        assert(cs[i as int] == (coeffs.terms@[i as int].0@, coeffs.terms@[i as int].1));
        let ghost sofar = w@;
        put_vars_field(w, "coeff", &coeffs.terms[i].0);
        let ghost a = field("coeff"@, vars_text(cs[i as int].0));
        w.push(':');
        push_dec(w, coeffs.terms[i].1 as u128);
        let ghost d = dec(cs[i as int].1 as nat);
        let ghost more = coeffs_text(cs, i + 1);
        assert(w@ =~= sofar + a + seq![':'] + d);
        assert(w@ + more == sofar + (a + (seq![':'] + (d + more))));
        i += 1;
    }
    assert(w@ + coeffs_text(cs, i as int) =~= w@);
}

fn put_bits(w: &mut String, bits: &Vec<(u8, IRVarId)>)
    ensures
        final(w)@ == old(w)@ + bits_text(bits@, 0),
{
    broadcast use lemma_joined;

    let ghost before = w@;
    let mut i: usize = 0;
    while i < bits.len()
        invariant
            i <= bits@.len(),
            w@ + bits_text(bits@, i as int) == before + bits_text(bits@, 0),
        decreases bits@.len() - i,
    {
        broadcast use lemma_joined;

        let ghost sofar = w@;
        if i > 0 {
            w.push(',');
        }
        let ghost sep: Seq<char> = if i == 0 {
            Seq::empty()
        } else {
            seq![',']
        };
        assert(w@ =~= sofar + sep);
        let ghost mid = w@;
        w.push('(');
        push_dec(w, bits[i].0 as u128);
        w.push(',');
        put_var(w, bits[i].1);
        w.push(')');
        assert(w@ =~= mid + bit_text(bits@[i as int]));
        let ghost more = bits_text(bits@, i + 1);
        assert(w@ + more == sofar + ((sep + bit_text(bits@[i as int])) + more));
        i += 1;
    }
    assert(w@ + bits_text(bits@, i as int) =~= w@);
}

/// Append a statement.
pub fn write_ir_stmt(w: &mut String, stmt: &IRStmt)
    ensures
        final(w)@ == old(w)@ + stmt_text(stmt@),
{
    reveal(stmt_text);
    let ghost b = w@;
    match stmt {
        IRStmt::Const(c, ty) => {
            w.push_str("const");
            put_spaced_constant(w, c);
            put_type_field(w, "ty", *ty);
            proof {
                let f1 = spaced(constant_text(*c));
                let f2 = field("ty"@, type_text(*ty));
                lemma_joined(b, "const"@, f1);
                lemma_joined(b, "const"@ + f1, f2);
            }
        },
        IRStmt::StorageRead { storage, ty, addr } => {
            w.push_str("storage_read");
            put_storage_field(w, "storage", *storage);
            put_type_field(w, "ty", *ty);
            put_var_field(w, "addr", *addr);
            proof {
                let f1 = field("storage"@, storage_text(*storage));
                let f2 = field("ty"@, type_text(*ty));
                let f3 = field("addr"@, var_text(*addr));
                lemma_joined(b, "storage_read"@, f1);
                lemma_joined(b, "storage_read"@ + f1, f2);
                lemma_joined(b, "storage_read"@ + f1 + f2, f3);
            }
        },
        IRStmt::StorageWrite { storage, src, ty, addr } => {
            w.push_str("storage_write");
            put_storage_field(w, "storage", *storage);
            put_var_field(w, "src", *src);
            put_type_field(w, "ty", *ty);
            put_var_field(w, "addr", *addr);
            proof {
                let f1 = field("storage"@, storage_text(*storage));
                let f2 = field("src"@, var_text(*src));
                let f3 = field("ty"@, type_text(*ty));
                let f4 = field("addr"@, var_text(*addr));
                lemma_joined(b, "storage_write"@, f1);
                lemma_joined(b, "storage_write"@ + f1, f2);
                lemma_joined(b, "storage_write"@ + f1 + f2, f3);
                lemma_joined(b, "storage_write"@ + f1 + f2 + f3, f4);
            }
        },
        IRStmt::Transmute { src, src_ty, dst_ty } => {
            w.push_str("transmute");
            put_var_field(w, "src", *src);
            put_type_field(w, "src_ty", *src_ty);
            put_type_field(w, "dst_ty", *dst_ty);
            proof {
                let f1 = field("src"@, var_text(*src));
                let f2 = field("src_ty"@, type_text(*src_ty));
                let f3 = field("dst_ty"@, type_text(*dst_ty));
                lemma_joined(b, "transmute"@, f1);
                lemma_joined(b, "transmute"@ + f1, f2);
                lemma_joined(b, "transmute"@ + f1 + f2, f3);
            }
        },
        IRStmt::Poly { ty, coeffs, constant } => {
            w.push_str("poly");
            put_type_field(w, "ty", *ty);
            put_constant_field(w, "const", *constant);
            put_coeffs(w, coeffs);
            proof {
                let f1 = field("ty"@, type_text(*ty));
                let f2 = field("const"@, constant_text(*constant));
                lemma_joined(b, "poly"@, f1);
                lemma_joined(b, "poly"@ + f1, f2);
                lemma_joined(b, "poly"@ + f1 + f2, coeffs_text(coeffs@, 0));
            }
        },
        IRStmt::Rol { src, ty, n } => {
            w.push_str("rol");
            put_var_field(w, "src", *src);
            put_type_field(w, "ty", *ty);
            put_usize_field(w, "n", *n);
            proof {
                let f1 = field("src"@, var_text(*src));
                let f2 = field("ty"@, type_text(*ty));
                let f3 = field("n"@, usize_text(*n));
                lemma_joined(b, "rol"@, f1);
                lemma_joined(b, "rol"@ + f1, f2);
                lemma_joined(b, "rol"@ + f1 + f2, f3);
            }
        },
        IRStmt::Ror { src, ty, n } => {
            w.push_str("ror");
            put_var_field(w, "src", *src);
            put_type_field(w, "ty", *ty);
            put_usize_field(w, "n", *n);
            proof {
                let f1 = field("src"@, var_text(*src));
                let f2 = field("ty"@, type_text(*ty));
                let f3 = field("n"@, usize_text(*n));
                lemma_joined(b, "ror"@, f1);
                lemma_joined(b, "ror"@ + f1, f2);
                lemma_joined(b, "ror"@ + f1 + f2, f3);
            }
        },
        IRStmt::Merge { ty, parts } => {
            w.push_str("merge");
            put_type_field(w, "ty", *ty);
            put_vars_field(w, "parts", parts);
            proof {
                let f1 = field("ty"@, type_text(*ty));
                let f2 = field("parts"@, vars_text(parts@));
                lemma_joined(b, "merge"@, f1);
                lemma_joined(b, "merge"@ + f1, f2);
            }
        },
        IRStmt::Splat { src, ty } => {
            w.push_str("splat");
            put_var_field(w, "src", *src);
            put_type_field(w, "ty", *ty);
            proof {
                let f1 = field("src"@, var_text(*src));
                let f2 = field("ty"@, type_text(*ty));
                lemma_joined(b, "splat"@, f1);
                lemma_joined(b, "splat"@ + f1, f2);
            }
        },
        IRStmt::Shuffle { result_bits, ty } => {
            w.push_str("shuffle");
            put_type_field(w, "ty", *ty);
            let ghost before = w@;
            put_key(w, "bits");
            w.push('[');
            put_bits(w, result_bits);
            w.push(']');
            proof {
                let f1 = field("ty"@, type_text(*ty));
                let f2 = field("bits"@, seq!['['] + bits_text(result_bits@, 0) + seq![']']);
                assert(w@ =~= before + f2);
                lemma_joined(b, "shuffle"@, f1);
                lemma_joined(b, "shuffle"@ + f1, f2);
            }
        },
        IRStmt::OracleCall { name, args, output_tys, result_ty } => {
            w.push_str("oracle_call");
            put_spaced_name(w, name);
            put_vars_field(w, "args", args);
            put_types_field(w, "out_tys", output_tys);
            put_type_field(w, "result_ty", *result_ty);
            proof {
                let f1 = spaced(name_text(name@));
                let f2 = field("args"@, vars_text(args@));
                let f3 = field("out_tys"@, types_text(output_tys@));
                let f4 = field("result_ty"@, type_text(*result_ty));
                lemma_joined(b, "oracle_call"@, f1);
                lemma_joined(b, "oracle_call"@ + f1, f2);
                lemma_joined(b, "oracle_call"@ + f1 + f2, f3);
                lemma_joined(b, "oracle_call"@ + f1 + f2 + f3, f4);
            }
        },
        IRStmt::OracleOutput { call, idx, ty } => {
            w.push_str("oracle_output");
            put_var_field(w, "call", *call);
            put_usize_field(w, "idx", *idx);
            put_type_field(w, "ty", *ty);
            proof {
                let f1 = field("call"@, var_text(*call));
                let f2 = field("idx"@, usize_text(*idx));
                let f3 = field("ty"@, type_text(*ty));
                lemma_joined(b, "oracle_output"@, f1);
                lemma_joined(b, "oracle_output"@ + f1, f2);
                lemma_joined(b, "oracle_output"@ + f1 + f2, f3);
            }
        },
        IRStmt::ActionCall { name, guard, args, fallbacks, output_tys, result_ty } => {
            w.push_str("action_call");
            put_spaced_name(w, name);
            put_var_field(w, "guard", *guard);
            put_vars_field(w, "args", args);
            put_vars_field(w, "fallbacks", fallbacks);
            put_types_field(w, "out_tys", output_tys);
            put_type_field(w, "result_ty", *result_ty);
            proof {
                let f1 = spaced(name_text(name@));
                let f2 = field("guard"@, var_text(*guard));
                let f3 = field("args"@, vars_text(args@));
                let f4 = field("fallbacks"@, vars_text(fallbacks@));
                let f5 = field("out_tys"@, types_text(output_tys@));
                let f6 = field("result_ty"@, type_text(*result_ty));
                lemma_joined(b, "action_call"@, f1);
                lemma_joined(b, "action_call"@ + f1, f2);
                lemma_joined(b, "action_call"@ + f1 + f2, f3);
                lemma_joined(b, "action_call"@ + f1 + f2 + f3, f4);
                lemma_joined(b, "action_call"@ + f1 + f2 + f3 + f4, f5);
                lemma_joined(b, "action_call"@ + f1 + f2 + f3 + f4 + f5, f6);
            }
        },
        IRStmt::ActionOutput { call, idx, ty } => {
            w.push_str("action_output");
            put_var_field(w, "call", *call);
            put_usize_field(w, "idx", *idx);
            put_type_field(w, "ty", *ty);
            proof {
                let f1 = field("call"@, var_text(*call));
                let f2 = field("idx"@, usize_text(*idx));
                let f3 = field("ty"@, type_text(*ty));
                lemma_joined(b, "action_output"@, f1);
                lemma_joined(b, "action_output"@ + f1, f2);
                lemma_joined(b, "action_output"@ + f1 + f2, f3);
            }
        },
        IRStmt::Rng { name, ty } => {
            w.push_str("rng");
            put_spaced_name(w, name);
            put_type_field(w, "ty", *ty);
            proof {
                let f1 = spaced(name_text(name@));
                let f2 = field("ty"@, type_text(*ty));
                lemma_joined(b, "rng"@, f1);
                lemma_joined(b, "rng"@ + f1, f2);
            }
        },
        IRStmt::ActionStore { .. } => {
            w.push_str("<unknown-stmt>");
        },
    }
}

// ---------------------------------------------------------------------------
// Reading
// ---------------------------------------------------------------------------

/// The coefficients of a polynomial: fields `coeff`, each with a monomial and
/// its coefficient.
pub open spec fn get_coeffs(l: LexView, so_far: Seq<(Seq<IRVarId>, u8)>) -> Parsed<
    Seq<(Seq<IRVarId>, u8)>,
>
    decreases l.rest.len(),
{
    let l = l.skipped();
    if !l.at('c') {
        Ok((so_far, l))
    } else {
        match get_ident(l) {
            Err(e) => Err(e),
            Ok((kw, l1)) => if kw != "coeff"@ {
                Ok((so_far, l1))
            } else {
                match get_char(l1, '=') {
                    Err(e) => Err(e),
                    Ok((_, l2)) => match get_vars(l2) {
                        Err(e) => Err(e),
                        Ok((vars, l3)) => match get_char(l3, ':') {
                            Err(e) => Err(e),
                            Ok((_, l4)) => match get_u32(l4) {
                                Err(e) => Err(e),
                                Ok((n, l5)) => {
                                    proof {
                                        broadcast use {group_shrinks, lemma_values_shrink};

                                    }
                                    get_coeffs(
                                        l5,
                                        assoc_insert(so_far, vars, n as u8, vars_order()),
                                    )
                                },
                            },
                        },
                    },
                }
            },
        }
    }
}

/// A chosen bit.
pub open spec fn get_bit(l: LexView) -> Parsed<(u8, IRVarId)> {
    match get_char(l, '(') {
        Err(e) => Err(e),
        Ok((_, l)) => match get_u32(l) {
            Err(e) => Err(e),
            Ok((n, l)) => match get_char(l, ',') {
                Err(e) => Err(e),
                Ok((_, l)) => match get_var_id(l) {
                    Err(e) => Err(e),
                    Ok((v, l)) => match get_char(l, ')') {
                        Err(e) => Err(e),
                        Ok((_, l)) => Ok(((n as u8, v), l)),
                    },
                },
            },
        },
    }
}

pub proof fn lemma_bit_shrinks(l: LexView)
    ensures
        get_bit(l) matches Ok((_, m)) ==> m.rest.len() < l.rest.len(),
{
    broadcast use {group_shrinks, lemma_values_shrink};

}

/// The rest of a list of chosen bits.
pub open spec fn get_bits(l: LexView, so_far: Seq<(u8, IRVarId)>) -> Parsed<Seq<(u8, IRVarId)>>
    decreases l.rest.len(),
{
    let (end, l1) = try_char(l, ']');
    if end {
        Ok((so_far, l1))
    } else {
        match get_bit(l1) {
            Err(e) => Err(e),
            Ok((b, l2)) => {
                let (more, l3) = try_char(l2, ',');
                if more {
                    proof {
                        broadcast use group_shrinks;

                        lemma_bit_shrinks(l1);
                    }
                    get_bits(l3, so_far.push(b))
                } else {
                    match get_char(l3, ']') {
                        Err(e) => Err(e),
                        Ok((_, l4)) => Ok((so_far.push(b), l4)),
                    }
                }
            },
        }
    }
}

/// A constant.
pub open spec fn get_const(l: LexView) -> Parsed<StmtView> {
    match get_constant(l) {
        Err(e) => Err(e),
        Ok((c, l)) => 
        match get_type_field(l, "ty"@) {
            Err(e) => Err(e),
            Ok((ty, l)) => Ok((StmtView::Const(c, ty), l)),
        },
    }
}

/// A read.
pub open spec fn get_storage_read(l: LexView) -> Parsed<StmtView> {
    match get_storage_field(l, "storage"@) {
        Err(e) => Err(e),
        Ok((storage, l)) => 
        match get_type_field(l, "ty"@) {
            Err(e) => Err(e),
            Ok((ty, l)) => 
            match get_var_field(l, "addr"@) {
                Err(e) => Err(e),
                Ok((addr, l)) => Ok((StmtView::StorageRead { storage, ty, addr }, l)),
            },
        },
    }
}

/// A write.
pub open spec fn get_storage_write(l: LexView) -> Parsed<StmtView> {
    match get_storage_field(l, "storage"@) {
        Err(e) => Err(e),
        Ok((storage, l)) => 
        match get_var_field(l, "src"@) {
            Err(e) => Err(e),
            Ok((src, l)) => 
            match get_type_field(l, "ty"@) {
                Err(e) => Err(e),
                Ok((ty, l)) => 
                match get_var_field(l, "addr"@) {
                    Err(e) => Err(e),
                    Ok((addr, l)) => Ok((StmtView::StorageWrite { storage, src, ty, addr }, l)),
                },
            },
        },
    }
}

/// A change of type.
pub open spec fn get_transmute(l: LexView) -> Parsed<StmtView> {
    match get_var_field(l, "src"@) {
        Err(e) => Err(e),
        Ok((src, l)) => 
        match get_type_field(l, "src_ty"@) {
            Err(e) => Err(e),
            Ok((src_ty, l)) => 
            match get_type_field(l, "dst_ty"@) {
                Err(e) => Err(e),
                Ok((dst_ty, l)) => Ok((StmtView::Transmute { src, src_ty, dst_ty }, l)),
            },
        },
    }
}

/// A polynomial.
pub open spec fn get_poly(l: LexView) -> Parsed<StmtView> {
    match get_type_field(l, "ty"@) {
        Err(e) => Err(e),
        Ok((ty, l)) => match get_constant_field(l, "const"@) {
            Err(e) => Err(e),
            Ok((constant, l)) => match get_coeffs(l, Seq::empty()) {
                Err(e) => Err(e),
                Ok((coeffs, l)) => Ok((StmtView::Poly { ty, coeffs, constant }, l)),
            },
        },
    }
}

/// A rotation to the left.
pub open spec fn get_rol(l: LexView) -> Parsed<StmtView> {
    match get_var_field(l, "src"@) {
        Err(e) => Err(e),
        Ok((src, l)) => 
        match get_type_field(l, "ty"@) {
            Err(e) => Err(e),
            Ok((ty, l)) => 
            match get_usize_field(l, "n"@) {
                Err(e) => Err(e),
                Ok((n, l)) => Ok((StmtView::Rol { src, ty, n }, l)),
            },
        },
    }
}

/// A rotation to the right.
pub open spec fn get_ror(l: LexView) -> Parsed<StmtView> {
    match get_var_field(l, "src"@) {
        Err(e) => Err(e),
        Ok((src, l)) => 
        match get_type_field(l, "ty"@) {
            Err(e) => Err(e),
            Ok((ty, l)) => 
            match get_usize_field(l, "n"@) {
                Err(e) => Err(e),
                Ok((n, l)) => Ok((StmtView::Ror { src, ty, n }, l)),
            },
        },
    }
}

/// A concatenation.
pub open spec fn get_merge(l: LexView) -> Parsed<StmtView> {
    match get_type_field(l, "ty"@) {
        Err(e) => Err(e),
        Ok((ty, l)) => 
        match get_vars_field(l, "parts"@) {
            Err(e) => Err(e),
            Ok((parts, l)) => Ok((StmtView::Merge { ty, parts }, l)),
        },
    }
}

/// A repetition.
pub open spec fn get_splat(l: LexView) -> Parsed<StmtView> {
    match get_var_field(l, "src"@) {
        Err(e) => Err(e),
        Ok((src, l)) => 
        match get_type_field(l, "ty"@) {
            Err(e) => Err(e),
            Ok((ty, l)) => Ok((StmtView::Splat { src, ty }, l)),
        },
    }
}

/// A choice of bits.
pub open spec fn get_shuffle(l: LexView) -> Parsed<StmtView> {
    match get_type_field(l, "ty"@) {
        Err(e) => Err(e),
        Ok((ty, l)) => match get_key(l, "bits"@) {
            Err(e) => Err(e),
            Ok((_, l)) => match get_char(l, '[') {
                Err(e) => Err(e),
                Ok((_, l)) => match get_bits(l, Seq::empty()) {
                    Err(e) => Err(e),
                    Ok((result_bits, l)) => Ok((StmtView::Shuffle { result_bits, ty }, l)),
                },
            },
        },
    }
}

/// An oracle call.
pub open spec fn get_oracle_call(l: LexView) -> Parsed<StmtView> {
    match get_name(l) {
        Err(e) => Err(e),
        Ok((name, l)) => 
        match get_vars_field(l, "args"@) {
            Err(e) => Err(e),
            Ok((args, l)) => 
            match get_types_field(l, "out_tys"@) {
                Err(e) => Err(e),
                Ok((output_tys, l)) => 
                match get_type_field(l, "result_ty"@) {
                    Err(e) => Err(e),
                    Ok((result_ty, l)) => Ok((StmtView::OracleCall { name, args, output_tys, result_ty }, l)),
                },
            },
        },
    }
}

/// An output of an oracle call.
pub open spec fn get_oracle_output(l: LexView) -> Parsed<StmtView> {
    match get_var_field(l, "call"@) {
        Err(e) => Err(e),
        Ok((call, l)) => 
        match get_usize_field(l, "idx"@) {
            Err(e) => Err(e),
            Ok((idx, l)) => 
            match get_type_field(l, "ty"@) {
                Err(e) => Err(e),
                Ok((ty, l)) => Ok((StmtView::OracleOutput { call, idx, ty }, l)),
            },
        },
    }
}

/// An action call.
pub open spec fn get_action_call(l: LexView) -> Parsed<StmtView> {
    match get_name(l) {
        Err(e) => Err(e),
        Ok((name, l)) => 
        match get_var_field(l, "guard"@) {
            Err(e) => Err(e),
            Ok((guard, l)) => 
            match get_vars_field(l, "args"@) {
                Err(e) => Err(e),
                Ok((args, l)) => 
                match get_vars_field(l, "fallbacks"@) {
                    Err(e) => Err(e),
                    Ok((fallbacks, l)) => 
                    match get_types_field(l, "out_tys"@) {
                        Err(e) => Err(e),
                        Ok((output_tys, l)) => 
                        match get_type_field(l, "result_ty"@) {
                            Err(e) => Err(e),
                            Ok((result_ty, l)) => Ok((StmtView::ActionCall { name, guard, args, fallbacks, output_tys, result_ty }, l)),
                        },
                    },
                },
            },
        },
    }
}

/// An output of an action call.
pub open spec fn get_action_output(l: LexView) -> Parsed<StmtView> {
    match get_var_field(l, "call"@) {
        Err(e) => Err(e),
        Ok((call, l)) => 
        match get_usize_field(l, "idx"@) {
            Err(e) => Err(e),
            Ok((idx, l)) => 
            match get_type_field(l, "ty"@) {
                Err(e) => Err(e),
                Ok((ty, l)) => Ok((StmtView::ActionOutput { call, idx, ty }, l)),
            },
        },
    }
}

/// A random value.
pub open spec fn get_rng(l: LexView) -> Parsed<StmtView> {
    match get_name(l) {
        Err(e) => Err(e),
        Ok((name, l)) => 
        match get_type_field(l, "ty"@) {
            Err(e) => Err(e),
            Ok((ty, l)) => Ok((StmtView::Rng { name, ty }, l)),
        },
    }
}

/// A statement behind its word.
#[verifier::opaque]
pub open spec fn get_stmt(kw: Seq<char>, l: LexView) -> Parsed<StmtView> {
    if kw == "const"@ {
        get_const(l)
    } else if kw == "storage_read"@ {
        get_storage_read(l)
    } else if kw == "storage_write"@ {
        get_storage_write(l)
    } else if kw == "transmute"@ {
        get_transmute(l)
    } else if kw == "poly"@ {
        get_poly(l)
    } else if kw == "rol"@ {
        get_rol(l)
    } else if kw == "ror"@ {
        get_ror(l)
    } else if kw == "merge"@ {
        get_merge(l)
    } else if kw == "splat"@ {
        get_splat(l)
    } else if kw == "shuffle"@ {
        get_shuffle(l)
    } else if kw == "oracle_call"@ {
        get_oracle_call(l)
    } else if kw == "oracle_output"@ {
        get_oracle_output(l)
    } else if kw == "action_call"@ {
        get_action_call(l)
    } else if kw == "action_output"@ {
        get_action_output(l)
    } else if kw == "rng"@ {
        get_rng(l)
    } else {
        Err(l.error("unknown IR stmt '"@ + kw + "'"@))
    }
}

pub proof fn lemma_coeffs_shrink(l: LexView, so_far: Seq<(Seq<IRVarId>, u8)>)
    ensures
        get_coeffs(l, so_far) matches Ok((_, m)) ==> m.rest.len() <= l.rest.len(),
    decreases l.rest.len(),
{
    broadcast use {group_shrinks, lemma_values_shrink};

    let l = l.skipped();
    if l.at('c') {
        match get_ident(l) {
            Err(_) => {},
            Ok((kw, l1)) => if kw == "coeff"@ {
                match get_char(l1, '=') {
                    Err(_) => {},
                    Ok((_, l2)) => match get_vars(l2) {
                        Err(_) => {},
                        Ok((vars, l3)) => match get_char(l3, ':') {
                            Err(_) => {},
                            Ok((_, l4)) => match get_u32(l4) {
                                Err(_) => {},
                                Ok((n, l5)) => {
                                    lemma_coeffs_shrink(
                                        l5,
                                        assoc_insert(so_far, vars, n as u8, vars_order()),
                                    );
                                },
                            },
                        },
                    },
                }
            },
        }
    }
}

proof fn lemma_bits_shrink(l: LexView, so_far: Seq<(u8, IRVarId)>)
    ensures
        get_bits(l, so_far) matches Ok((_, m)) ==> m.rest.len() <= l.rest.len(),
    decreases l.rest.len(),
{
    broadcast use group_shrinks;

    let (end, l1) = try_char(l, ']');
    if !end {
        lemma_bit_shrinks(l1);
        match get_bit(l1) {
            Err(_) => {},
            Ok((b, l2)) => {
                let (more, l3) = try_char(l2, ',');
                if more {
                    lemma_bits_shrink(l3, so_far.push(b));
                }
            },
        }
    }
}

proof fn lemma_const_shrinks(l: LexView)
    ensures
        get_const(l) matches Ok((_, m)) ==> m.rest.len() <= l.rest.len(),
{
    broadcast use {group_shrinks, lemma_values_shrink, lemma_fields_shrink};

}

proof fn lemma_storage_read_shrinks(l: LexView)
    ensures
        get_storage_read(l) matches Ok((_, m)) ==> m.rest.len() <= l.rest.len(),
{
    broadcast use {group_shrinks, lemma_values_shrink, lemma_fields_shrink};

}

proof fn lemma_storage_write_shrinks(l: LexView)
    ensures
        get_storage_write(l) matches Ok((_, m)) ==> m.rest.len() <= l.rest.len(),
{
    broadcast use {group_shrinks, lemma_values_shrink, lemma_fields_shrink};

}

proof fn lemma_transmute_shrinks(l: LexView)
    ensures
        get_transmute(l) matches Ok((_, m)) ==> m.rest.len() <= l.rest.len(),
{
    broadcast use {group_shrinks, lemma_values_shrink, lemma_fields_shrink};

}

proof fn lemma_poly_shrinks(l: LexView)
    ensures
        get_poly(l) matches Ok((_, m)) ==> m.rest.len() <= l.rest.len(),
{
    broadcast use {group_shrinks, lemma_values_shrink, lemma_fields_shrink};

    assert forall|x: LexView| #[trigger] get_coeffs(x, Seq::empty()) matches Ok((_, m))
        ==> m.rest.len() <= x.rest.len() by {
        lemma_coeffs_shrink(x, Seq::empty());
    }
}

proof fn lemma_rol_shrinks(l: LexView)
    ensures
        get_rol(l) matches Ok((_, m)) ==> m.rest.len() <= l.rest.len(),
{
    broadcast use {group_shrinks, lemma_values_shrink, lemma_fields_shrink};

}

proof fn lemma_ror_shrinks(l: LexView)
    ensures
        get_ror(l) matches Ok((_, m)) ==> m.rest.len() <= l.rest.len(),
{
    broadcast use {group_shrinks, lemma_values_shrink, lemma_fields_shrink};

}

proof fn lemma_merge_shrinks(l: LexView)
    ensures
        get_merge(l) matches Ok((_, m)) ==> m.rest.len() <= l.rest.len(),
{
    broadcast use {group_shrinks, lemma_values_shrink, lemma_fields_shrink};

}

proof fn lemma_splat_shrinks(l: LexView)
    ensures
        get_splat(l) matches Ok((_, m)) ==> m.rest.len() <= l.rest.len(),
{
    broadcast use {group_shrinks, lemma_values_shrink, lemma_fields_shrink};

}

proof fn lemma_shuffle_shrinks(l: LexView)
    ensures
        get_shuffle(l) matches Ok((_, m)) ==> m.rest.len() <= l.rest.len(),
{
    broadcast use {group_shrinks, lemma_values_shrink, lemma_fields_shrink};

    assert forall|x: LexView| #[trigger] get_bits(x, Seq::empty()) matches Ok((_, m))
        ==> m.rest.len() <= x.rest.len() by {
        lemma_bits_shrink(x, Seq::empty());
    }
}

proof fn lemma_oracle_call_shrinks(l: LexView)
    ensures
        get_oracle_call(l) matches Ok((_, m)) ==> m.rest.len() <= l.rest.len(),
{
    broadcast use {group_shrinks, lemma_values_shrink, lemma_fields_shrink};

}

proof fn lemma_oracle_output_shrinks(l: LexView)
    ensures
        get_oracle_output(l) matches Ok((_, m)) ==> m.rest.len() <= l.rest.len(),
{
    broadcast use {group_shrinks, lemma_values_shrink, lemma_fields_shrink};

}

proof fn lemma_action_call_shrinks(l: LexView)
    ensures
        get_action_call(l) matches Ok((_, m)) ==> m.rest.len() <= l.rest.len(),
{
    broadcast use {group_shrinks, lemma_values_shrink, lemma_fields_shrink};

}

proof fn lemma_action_output_shrinks(l: LexView)
    ensures
        get_action_output(l) matches Ok((_, m)) ==> m.rest.len() <= l.rest.len(),
{
    broadcast use {group_shrinks, lemma_values_shrink, lemma_fields_shrink};

}

proof fn lemma_rng_shrinks(l: LexView)
    ensures
        get_rng(l) matches Ok((_, m)) ==> m.rest.len() <= l.rest.len(),
{
    broadcast use {group_shrinks, lemma_values_shrink, lemma_fields_shrink};

}

/// A statement ends no further on than the text is long.
pub proof fn lemma_stmt_shrinks(kw: Seq<char>, l: LexView)
    ensures
        get_stmt(kw, l) matches Ok((_, m)) ==> m.rest.len() <= l.rest.len(),
{
    reveal(get_stmt);
    lemma_const_shrinks(l);
    lemma_storage_read_shrinks(l);
    lemma_storage_write_shrinks(l);
    lemma_transmute_shrinks(l);
    lemma_poly_shrinks(l);
    lemma_rol_shrinks(l);
    lemma_ror_shrinks(l);
    lemma_merge_shrinks(l);
    lemma_splat_shrinks(l);
    lemma_shuffle_shrinks(l);
    lemma_oracle_call_shrinks(l);
    lemma_oracle_output_shrinks(l);
    lemma_action_call_shrinks(l);
    lemma_action_output_shrinks(l);
    lemma_rng_shrinks(l);
}

fn read_coeffs(lex: &mut Lexer) -> (r: Result<PolyCoeffs, ParseError>)
    ensures
        gives_view(r, final(lex)@, get_coeffs(old(lex)@, Seq::empty())),
{
    let ghost whole = get_coeffs(lex@, Seq::empty());
    let mut coeffs: PolyCoeffs = PolyCoeffs::new();
    loop
        invariant
            whole == get_coeffs(old(lex)@, Seq::empty()),
            whole == get_coeffs(lex@, coeffs@),
        decreases lex@.rest.len(),
    {
        broadcast use {group_shrinks, lemma_values_shrink};

        if !lex.peek_is('c') {
            return Ok(coeffs);
        }
        let kw: String = match lex.read_ident() {
            Ok(kw) => kw,
            Err(e) => {
                return Err(e);
            },
        };
        if !is_word(&kw, "coeff") {
            return Ok(coeffs);
        }
        match lex.expect('=') {
            Ok(_) => {},
            Err(e) => {
                return Err(e);
            },
        }
        let vars: Vec<IRVarId> = match read_vars(lex) {
            Ok(v) => v,
            Err(e) => {
                return Err(e);
            },
        };
        match lex.expect(':') {
            Ok(_) => {},
            Err(e) => {
                return Err(e);
            },
        }
        match lex.read_u32() {
            Ok(n) => {
                coeffs.insert(vars, n as u8);
            },
            Err(e) => {
                return Err(e);
            },
        }
    }
}

fn read_bit(lex: &mut Lexer) -> (r: Result<(u8, IRVarId), ParseError>)
    ensures
        gives(r, final(lex)@, get_bit(old(lex)@)),
{
    match lex.expect('(') {
        Ok(_) => {},
        Err(e) => {
            return Err(e);
        },
    }
    let n: u32 = match lex.read_u32() {
        Ok(n) => n,
        Err(e) => {
            return Err(e);
        },
    };
    match lex.expect(',') {
        Ok(_) => {},
        Err(e) => {
            return Err(e);
        },
    }
    let v: IRVarId = match read_var_id(lex) {
        Ok(v) => v,
        Err(e) => {
            return Err(e);
        },
    };
    match lex.expect(')') {
        Ok(_) => Ok((n as u8, v)),
        Err(e) => Err(e),
    }
}

fn read_bits(lex: &mut Lexer) -> (r: Result<Vec<(u8, IRVarId)>, ParseError>)
    ensures
        gives_view(r, final(lex)@, get_bits(old(lex)@, Seq::empty())),
{
    let ghost whole = get_bits(lex@, Seq::empty());
    let mut bits: Vec<(u8, IRVarId)> = Vec::new();
    assert(bits@ =~= Seq::empty());
    loop
        invariant
            whole == get_bits(old(lex)@, Seq::empty()),
            whole == get_bits(lex@, bits@),
        decreases lex@.rest.len(),
    {
        broadcast use group_shrinks;

        if lex.take(']') {
            return Ok(bits);
        }
        proof {
            lemma_bit_shrinks(lex@);
        }
        match read_bit(lex) {
            Ok(b) => {
                bits.push(b);
            },
            Err(e) => {
                return Err(e);
            },
        }
        if !lex.take(',') {
            match lex.expect(']') {
                Ok(_) => {
                    return Ok(bits);
                },
                Err(e) => {
                    return Err(e);
                },
            }
        }
    }
}

fn read_const(lex: &mut Lexer) -> (r: Result<IRStmt, ParseError>)
    ensures
        gives_view(r, final(lex)@, get_const(old(lex)@)),
{
    let c: Constant = match read_constant(lex) {
        Ok(x) => x,
        Err(e) => {
            return Err(e);
        },
    };
    match read_type_field(lex, "ty") {
        Ok(ty) => Ok(IRStmt::Const(c, ty)),
        Err(e) => Err(e),
    }
}

fn read_storage_read(lex: &mut Lexer) -> (r: Result<IRStmt, ParseError>)
    ensures
        gives_view(r, final(lex)@, get_storage_read(old(lex)@)),
{
    let storage: StorageId = match read_storage_field(lex, "storage") {
        Ok(x) => x,
        Err(e) => {
            return Err(e);
        },
    };
    let ty: IRTypeId = match read_type_field(lex, "ty") {
        Ok(x) => x,
        Err(e) => {
            return Err(e);
        },
    };
    match read_var_field(lex, "addr") {
        Ok(addr) => Ok(IRStmt::StorageRead { storage, ty, addr }),
        Err(e) => Err(e),
    }
}

fn read_storage_write(lex: &mut Lexer) -> (r: Result<IRStmt, ParseError>)
    ensures
        gives_view(r, final(lex)@, get_storage_write(old(lex)@)),
{
    let storage: StorageId = match read_storage_field(lex, "storage") {
        Ok(x) => x,
        Err(e) => {
            return Err(e);
        },
    };
    let src: IRVarId = match read_var_field(lex, "src") {
        Ok(x) => x,
        Err(e) => {
            return Err(e);
        },
    };
    let ty: IRTypeId = match read_type_field(lex, "ty") {
        Ok(x) => x,
        Err(e) => {
            return Err(e);
        },
    };
    match read_var_field(lex, "addr") {
        Ok(addr) => Ok(IRStmt::StorageWrite { storage, src, ty, addr }),
        Err(e) => Err(e),
    }
}

fn read_transmute(lex: &mut Lexer) -> (r: Result<IRStmt, ParseError>)
    ensures
        gives_view(r, final(lex)@, get_transmute(old(lex)@)),
{
    let src: IRVarId = match read_var_field(lex, "src") {
        Ok(x) => x,
        Err(e) => {
            return Err(e);
        },
    };
    let src_ty: IRTypeId = match read_type_field(lex, "src_ty") {
        Ok(x) => x,
        Err(e) => {
            return Err(e);
        },
    };
    match read_type_field(lex, "dst_ty") {
        Ok(dst_ty) => Ok(IRStmt::Transmute { src, src_ty, dst_ty }),
        Err(e) => Err(e),
    }
}

fn read_poly(lex: &mut Lexer) -> (r: Result<IRStmt, ParseError>)
    ensures
        gives_view(r, final(lex)@, get_poly(old(lex)@)),
{
    let ty: IRTypeId = match read_type_field(lex, "ty") {
        Ok(x) => x,
        Err(e) => {
            return Err(e);
        },
    };
    let constant: Constant = match read_constant_field(lex, "const") {
        Ok(x) => x,
        Err(e) => {
            return Err(e);
        },
    };
    match read_coeffs(lex) {
        Ok(coeffs) => Ok(IRStmt::Poly { ty, coeffs, constant }),
        Err(e) => Err(e),
    }
}

fn read_rol(lex: &mut Lexer) -> (r: Result<IRStmt, ParseError>)
    ensures
        gives_view(r, final(lex)@, get_rol(old(lex)@)),
{
    let src: IRVarId = match read_var_field(lex, "src") {
        Ok(x) => x,
        Err(e) => {
            return Err(e);
        },
    };
    let ty: IRTypeId = match read_type_field(lex, "ty") {
        Ok(x) => x,
        Err(e) => {
            return Err(e);
        },
    };
    match read_usize_field(lex, "n") {
        Ok(n) => Ok(IRStmt::Rol { src, ty, n }),
        Err(e) => Err(e),
    }
}

fn read_ror(lex: &mut Lexer) -> (r: Result<IRStmt, ParseError>)
    ensures
        gives_view(r, final(lex)@, get_ror(old(lex)@)),
{
    let src: IRVarId = match read_var_field(lex, "src") {
        Ok(x) => x,
        Err(e) => {
            return Err(e);
        },
    };
    let ty: IRTypeId = match read_type_field(lex, "ty") {
        Ok(x) => x,
        Err(e) => {
            return Err(e);
        },
    };
    match read_usize_field(lex, "n") {
        Ok(n) => Ok(IRStmt::Ror { src, ty, n }),
        Err(e) => Err(e),
    }
}

fn read_merge(lex: &mut Lexer) -> (r: Result<IRStmt, ParseError>)
    ensures
        gives_view(r, final(lex)@, get_merge(old(lex)@)),
{
    let ty: IRTypeId = match read_type_field(lex, "ty") {
        Ok(x) => x,
        Err(e) => {
            return Err(e);
        },
    };
    match read_vars_field(lex, "parts") {
        Ok(parts) => Ok(IRStmt::Merge { ty, parts }),
        Err(e) => Err(e),
    }
}

fn read_splat(lex: &mut Lexer) -> (r: Result<IRStmt, ParseError>)
    ensures
        gives_view(r, final(lex)@, get_splat(old(lex)@)),
{
    let src: IRVarId = match read_var_field(lex, "src") {
        Ok(x) => x,
        Err(e) => {
            return Err(e);
        },
    };
    match read_type_field(lex, "ty") {
        Ok(ty) => Ok(IRStmt::Splat { src, ty }),
        Err(e) => Err(e),
    }
}

fn read_shuffle(lex: &mut Lexer) -> (r: Result<IRStmt, ParseError>)
    ensures
        gives_view(r, final(lex)@, get_shuffle(old(lex)@)),
{
    let ty: IRTypeId = match read_type_field(lex, "ty") {
        Ok(x) => x,
        Err(e) => {
            return Err(e);
        },
    };
    match lex.expect_key("bits") {
        Ok(_) => {},
        Err(e) => {
            return Err(e);
        },
    }
    match lex.expect('[') {
        Ok(_) => {},
        Err(e) => {
            return Err(e);
        },
    }
    match read_bits(lex) {
        Ok(result_bits) => Ok(IRStmt::Shuffle { result_bits, ty }),
        Err(e) => Err(e),
    }
}

fn read_oracle_call(lex: &mut Lexer) -> (r: Result<IRStmt, ParseError>)
    ensures
        gives_view(r, final(lex)@, get_oracle_call(old(lex)@)),
{
    let name: String = match read_name(lex) {
        Ok(x) => x,
        Err(e) => {
            return Err(e);
        },
    };
    let args: Vec<IRVarId> = match read_vars_field(lex, "args") {
        Ok(x) => x,
        Err(e) => {
            return Err(e);
        },
    };
    let output_tys: Vec<IRTypeId> = match read_types_field(lex, "out_tys") {
        Ok(x) => x,
        Err(e) => {
            return Err(e);
        },
    };
    match read_type_field(lex, "result_ty") {
        Ok(result_ty) => Ok(IRStmt::OracleCall { name, args, output_tys, result_ty }),
        Err(e) => Err(e),
    }
}

fn read_oracle_output(lex: &mut Lexer) -> (r: Result<IRStmt, ParseError>)
    ensures
        gives_view(r, final(lex)@, get_oracle_output(old(lex)@)),
{
    let call: IRVarId = match read_var_field(lex, "call") {
        Ok(x) => x,
        Err(e) => {
            return Err(e);
        },
    };
    let idx: usize = match read_usize_field(lex, "idx") {
        Ok(x) => x,
        Err(e) => {
            return Err(e);
        },
    };
    match read_type_field(lex, "ty") {
        Ok(ty) => Ok(IRStmt::OracleOutput { call, idx, ty }),
        Err(e) => Err(e),
    }
}

fn read_action_call(lex: &mut Lexer) -> (r: Result<IRStmt, ParseError>)
    ensures
        gives_view(r, final(lex)@, get_action_call(old(lex)@)),
{
    let name: String = match read_name(lex) {
        Ok(x) => x,
        Err(e) => {
            return Err(e);
        },
    };
    let guard: IRVarId = match read_var_field(lex, "guard") {
        Ok(x) => x,
        Err(e) => {
            return Err(e);
        },
    };
    let args: Vec<IRVarId> = match read_vars_field(lex, "args") {
        Ok(x) => x,
        Err(e) => {
            return Err(e);
        },
    };
    let fallbacks: Vec<IRVarId> = match read_vars_field(lex, "fallbacks") {
        Ok(x) => x,
        Err(e) => {
            return Err(e);
        },
    };
    let output_tys: Vec<IRTypeId> = match read_types_field(lex, "out_tys") {
        Ok(x) => x,
        Err(e) => {
            return Err(e);
        },
    };
    match read_type_field(lex, "result_ty") {
        Ok(result_ty) => Ok(IRStmt::ActionCall { name, guard, args, fallbacks, output_tys, result_ty }),
        Err(e) => Err(e),
    }
}

fn read_action_output(lex: &mut Lexer) -> (r: Result<IRStmt, ParseError>)
    ensures
        gives_view(r, final(lex)@, get_action_output(old(lex)@)),
{
    let call: IRVarId = match read_var_field(lex, "call") {
        Ok(x) => x,
        Err(e) => {
            return Err(e);
        },
    };
    let idx: usize = match read_usize_field(lex, "idx") {
        Ok(x) => x,
        Err(e) => {
            return Err(e);
        },
    };
    match read_type_field(lex, "ty") {
        Ok(ty) => Ok(IRStmt::ActionOutput { call, idx, ty }),
        Err(e) => Err(e),
    }
}

fn read_rng(lex: &mut Lexer) -> (r: Result<IRStmt, ParseError>)
    ensures
        gives_view(r, final(lex)@, get_rng(old(lex)@)),
{
    let name: String = match read_name(lex) {
        Ok(x) => x,
        Err(e) => {
            return Err(e);
        },
    };
    match read_type_field(lex, "ty") {
        Ok(ty) => Ok(IRStmt::Rng { name, ty }),
        Err(e) => Err(e),
    }
}

/// Read a statement behind its word.
pub fn parse_ir_stmt(kw: &String, lex: &mut Lexer) -> (r: Result<IRStmt, ParseError>)
    ensures
        gives_view(r, final(lex)@, get_stmt(kw@, old(lex)@)),
{
    reveal(get_stmt);
    if is_word(kw, "const") {
        read_const(lex)
    } else if is_word(kw, "storage_read") {
        read_storage_read(lex)
    } else if is_word(kw, "storage_write") {
        read_storage_write(lex)
    } else if is_word(kw, "transmute") {
        read_transmute(lex)
    } else if is_word(kw, "poly") {
        read_poly(lex)
    } else if is_word(kw, "rol") {
        read_rol(lex)
    } else if is_word(kw, "ror") {
        read_ror(lex)
    } else if is_word(kw, "merge") {
        read_merge(lex)
    } else if is_word(kw, "splat") {
        read_splat(lex)
    } else if is_word(kw, "shuffle") {
        read_shuffle(lex)
    } else if is_word(kw, "oracle_call") {
        read_oracle_call(lex)
    } else if is_word(kw, "oracle_output") {
        read_oracle_output(lex)
    } else if is_word(kw, "action_call") {
        read_action_call(lex)
    } else if is_word(kw, "action_output") {
        read_action_output(lex)
    } else if is_word(kw, "rng") {
        read_rng(lex)
    } else {
        let at = lex.pos();
        let mut got: String = String::new();
        got.push_str("unknown IR stmt '");
        got.push_str(kw.as_str());
        got.push_str("'");
        assert(got@ =~= "unknown IR stmt '"@ + kw@ + "'"@);
        Err(ParseError::UnexpectedToken { line: at.line, col: at.col, got })
    }
}

// ---------------------------------------------------------------------------
// Reading back
// ---------------------------------------------------------------------------

/// Whether a line ends before a text, and the next one does not go on with
/// what only continues a line.
pub open spec fn at_line_end(k: Seq<char>, t: Seq<char>) -> bool {
    &&& k == seq!['\n'] + t
    &&& at_token(t)
    &&& t.len() > 0 ==> t[0] != 'c'
}

/// Whether reading gives `v` and the next token starts the text `t`.
pub open spec fn reads_line<T>(p: Parsed<T>, v: T, t: Seq<char>) -> bool {
    p matches Ok((x, m)) && x == v && m.skipped().rest == t
}

/// What is left at the end of a line is the next one.
pub proof fn lemma_line_end<T>(p: Parsed<T>, v: T, k: Seq<char>, t: Seq<char>)
    requires
        reads(p, v, k),
        at_line_end(k, t),
    ensures
        reads_line(p, v, t),
{
    let m = p->Ok_0.1;
    lemma_past_blank(m, '\n', t);
}

/// The keys of fields are words.
pub proof fn lemma_keys()
    ensures
        is_name("addr"@),
        is_name("args"@),
        is_name("bits"@),
        is_name("call"@),
        is_name("coeff"@),
        is_name("const"@),
        is_name("dst_ty"@),
        is_name("fallbacks"@),
        is_name("guard"@),
        is_name("idx"@),
        is_name("n"@),
        is_name("out_tys"@),
        is_name("parts"@),
        is_name("result_ty"@),
        is_name("src"@),
        is_name("src_ty"@),
        is_name("storage"@),
        is_name("ty"@),
{
    reveal_strlit("addr");
    reveal_strlit("args");
    reveal_strlit("bits");
    reveal_strlit("call");
    reveal_strlit("coeff");
    reveal_strlit("const");
    reveal_strlit("dst_ty");
    reveal_strlit("fallbacks");
    reveal_strlit("guard");
    reveal_strlit("idx");
    reveal_strlit("n");
    reveal_strlit("out_tys");
    reveal_strlit("parts");
    reveal_strlit("result_ty");
    reveal_strlit("src");
    reveal_strlit("src_ty");
    reveal_strlit("storage");
    reveal_strlit("ty");
}

/// The words of statements are words, and no two are the same.
pub proof fn lemma_stmt_words()
    ensures
        is_name("const"@),
        is_name("storage_read"@),
        is_name("storage_write"@),
        is_name("transmute"@),
        is_name("poly"@),
        is_name("rol"@),
        is_name("ror"@),
        is_name("merge"@),
        is_name("splat"@),
        is_name("shuffle"@),
        is_name("oracle_call"@),
        is_name("oracle_output"@),
        is_name("action_call"@),
        is_name("action_output"@),
        is_name("rng"@),
        "storage_read"@ != "const"@,
        "storage_write"@ != "const"@,
        "storage_write"@ != "storage_read"@,
        "transmute"@ != "const"@,
        "transmute"@ != "storage_read"@,
        "transmute"@ != "storage_write"@,
        "poly"@ != "const"@,
        "poly"@ != "storage_read"@,
        "poly"@ != "storage_write"@,
        "poly"@ != "transmute"@,
        "rol"@ != "const"@,
        "rol"@ != "storage_read"@,
        "rol"@ != "storage_write"@,
        "rol"@ != "transmute"@,
        "rol"@ != "poly"@,
        "ror"@ != "const"@,
        "ror"@ != "storage_read"@,
        "ror"@ != "storage_write"@,
        "ror"@ != "transmute"@,
        "ror"@ != "poly"@,
        "ror"@ != "rol"@,
        "merge"@ != "const"@,
        "merge"@ != "storage_read"@,
        "merge"@ != "storage_write"@,
        "merge"@ != "transmute"@,
        "merge"@ != "poly"@,
        "merge"@ != "rol"@,
        "merge"@ != "ror"@,
        "splat"@ != "const"@,
        "splat"@ != "storage_read"@,
        "splat"@ != "storage_write"@,
        "splat"@ != "transmute"@,
        "splat"@ != "poly"@,
        "splat"@ != "rol"@,
        "splat"@ != "ror"@,
        "splat"@ != "merge"@,
        "shuffle"@ != "const"@,
        "shuffle"@ != "storage_read"@,
        "shuffle"@ != "storage_write"@,
        "shuffle"@ != "transmute"@,
        "shuffle"@ != "poly"@,
        "shuffle"@ != "rol"@,
        "shuffle"@ != "ror"@,
        "shuffle"@ != "merge"@,
        "shuffle"@ != "splat"@,
        "oracle_call"@ != "const"@,
        "oracle_call"@ != "storage_read"@,
        "oracle_call"@ != "storage_write"@,
        "oracle_call"@ != "transmute"@,
        "oracle_call"@ != "poly"@,
        "oracle_call"@ != "rol"@,
        "oracle_call"@ != "ror"@,
        "oracle_call"@ != "merge"@,
        "oracle_call"@ != "splat"@,
        "oracle_call"@ != "shuffle"@,
        "oracle_output"@ != "const"@,
        "oracle_output"@ != "storage_read"@,
        "oracle_output"@ != "storage_write"@,
        "oracle_output"@ != "transmute"@,
        "oracle_output"@ != "poly"@,
        "oracle_output"@ != "rol"@,
        "oracle_output"@ != "ror"@,
        "oracle_output"@ != "merge"@,
        "oracle_output"@ != "splat"@,
        "oracle_output"@ != "shuffle"@,
        "oracle_output"@ != "oracle_call"@,
        "action_call"@ != "const"@,
        "action_call"@ != "storage_read"@,
        "action_call"@ != "storage_write"@,
        "action_call"@ != "transmute"@,
        "action_call"@ != "poly"@,
        "action_call"@ != "rol"@,
        "action_call"@ != "ror"@,
        "action_call"@ != "merge"@,
        "action_call"@ != "splat"@,
        "action_call"@ != "shuffle"@,
        "action_call"@ != "oracle_call"@,
        "action_call"@ != "oracle_output"@,
        "action_output"@ != "const"@,
        "action_output"@ != "storage_read"@,
        "action_output"@ != "storage_write"@,
        "action_output"@ != "transmute"@,
        "action_output"@ != "poly"@,
        "action_output"@ != "rol"@,
        "action_output"@ != "ror"@,
        "action_output"@ != "merge"@,
        "action_output"@ != "splat"@,
        "action_output"@ != "shuffle"@,
        "action_output"@ != "oracle_call"@,
        "action_output"@ != "oracle_output"@,
        "action_output"@ != "action_call"@,
        "rng"@ != "const"@,
        "rng"@ != "storage_read"@,
        "rng"@ != "storage_write"@,
        "rng"@ != "transmute"@,
        "rng"@ != "poly"@,
        "rng"@ != "rol"@,
        "rng"@ != "ror"@,
        "rng"@ != "merge"@,
        "rng"@ != "splat"@,
        "rng"@ != "shuffle"@,
        "rng"@ != "oracle_call"@,
        "rng"@ != "oracle_output"@,
        "rng"@ != "action_call"@,
        "rng"@ != "action_output"@,
{
    reveal_strlit("const");
    reveal_strlit("storage_read");
    reveal_strlit("storage_write");
    reveal_strlit("transmute");
    reveal_strlit("poly");
    reveal_strlit("rol");
    reveal_strlit("ror");
    reveal_strlit("merge");
    reveal_strlit("splat");
    reveal_strlit("shuffle");
    reveal_strlit("oracle_call");
    reveal_strlit("oracle_output");
    reveal_strlit("action_call");
    reveal_strlit("action_output");
    reveal_strlit("rng");
    assert("const"@.len() == 5);
    assert("storage_read"@.len() == 12);
    assert("storage_write"@.len() == 13);
    assert("transmute"@.len() == 9);
    assert("poly"@.len() == 4);
    assert("rol"@.len() == 3);
    assert("ror"@.len() == 3);
    assert("merge"@.len() == 5);
    assert("splat"@.len() == 5);
    assert("shuffle"@.len() == 7);
    assert("oracle_call"@.len() == 11);
    assert("oracle_output"@.len() == 13);
    assert("action_call"@.len() == 11);
    assert("action_output"@.len() == 13);
    assert("rng"@.len() == 3);
    assert("rol"@[2] == 'l' && "ror"@[2] == 'r' && "rng"@[1] == 'n');
    assert("merge"@[0] == 'm' && "splat"@[0] == 's' && "const"@[0] == 'c');
    assert("oracle_call"@[0] == 'o' && "action_call"@[0] == 'a');
    assert("storage_write"@[0] == 's' && "oracle_output"@[0] == 'o' && "action_output"@[0] == 'a');
}

proof fn lemma_coeffs(
    l: LexView,
    cs: Seq<(Seq<IRVarId>, u8)>,
    i: int,
    k: Seq<char>,
    t: Seq<char>,
)
    requires
        0 <= i <= cs.len(),
        assoc_sorted(cs, vars_order()),
        at_line_end(k, t),
        l.rest == coeffs_text(cs, i) + k,
    ensures
        reads_line(get_coeffs(l, cs.take(i)), cs, t),
        at_blank(l.rest),
    decreases cs.len() - i,
{
    if i == cs.len() {
        assert(l.rest =~= k);
        lemma_past_blank(l, '\n', t);
        lemma_at_token(l.skipped());
        assert(cs.take(i) =~= cs);
    } else {
        lemma_keys();
        let vs = cs[i].0;
        let n = cs[i].1;
        let more = coeffs_text(cs, i + 1) + k;
        let d = dec(n as nat) + more;
        let c = seq![':'] + d;
        let e = vars_text(vs) + c;
        let q = seq!['='] + e;
        let w = "coeff"@ + q;
        assert(l.rest == seq![' '] + w) by {
            broadcast use lemma_joined;

        }
        assert(l.rest[0] == ' ');
        assert("coeff"@.len() > 0 && "coeff"@[0] == 'c') by {
            reveal_strlit("coeff");
        }
        assert(w[0] == 'c');
        lemma_past_blank(l, ' ', w);
        let s = l.skipped();
        lemma_at_token(s);
        assert(q[0] == '=');
        lemma_word(s, "coeff"@, q);
        let l1 = get_ident(s)->Ok_0.1;
        lemma_at_token(l1);
        lemma_char(l1, '=', e);
        let l2 = get_char(l1, '=')->Ok_0.1;
        assert(e[0] == '[');
        lemma_at_token(l2);
        lemma_vars(l2, vs, c);
        let l3 = get_vars(l2)->Ok_0.1;
        assert(c[0] == ':');
        lemma_at_token(l3);
        lemma_char(l3, ':', d);
        let l4 = get_char(l3, ':')->Ok_0.1;
        lemma_digits(n as nat, 10);
        assert(d[0] == dec(n as nat)[0]);
        lemma_at_token(l4);
        assert(at_blank(more)) by {
            if i + 1 < cs.len() {
                broadcast use lemma_joined;

                lemma_field_blank(
                    "coeff"@,
                    vars_text(cs[i + 1].0),
                    seq![':'] + (dec(cs[i + 1].1 as nat) + (coeffs_text(cs, i + 2) + k)),
                );
            } else {
                assert(more =~= k);
            }
        }
        lemma_blank_ends(more);
        lemma_dec(l4, n as nat, u32::MAX as nat, more);
        let l5 = get_u32(l4)->Ok_0.1;
        lemma_vars_order();
        assert forall|j: int| 0 <= j < cs.take(i).len() implies vars_order()(
            (#[trigger] cs.take(i)[j]).0,
            vs,
        ) by {
            assert(cs.take(i)[j] == cs[j]);
        }
        lemma_assoc_insert_last(cs.take(i), vs, n, vars_order());
        assert(cs.take(i + 1) =~= cs.take(i).push((vs, n)));
        lemma_coeffs(l5, cs, i + 1, k, t);
    }
}

proof fn lemma_bit(l: LexView, b: (u8, IRVarId), k: Seq<char>)
    requires
        l.skipped().rest == bit_text(b) + k,
    ensures
        reads(get_bit(l), b, k),
{
    broadcast use lemma_joined;

    let c4 = seq![')'] + k;
    let c3 = var_text(b.1) + c4;
    let c2 = seq![','] + c3;
    let c1 = dec(b.0 as nat) + c2;
    assert(l.skipped().rest == seq!['('] + c1);
    lemma_char(l, '(', c1);
    let l1 = get_char(l, '(')->Ok_0.1;
    lemma_digits(b.0 as nat, 10);
    assert(c1[0] == dec(b.0 as nat)[0]);
    lemma_at_token(l1);
    assert(c2[0] == ',');
    lemma_dec(l1, b.0 as nat, u32::MAX as nat, c2);
    let l2 = get_u32(l1)->Ok_0.1;
    lemma_at_token(l2);
    lemma_char(l2, ',', c3);
    let l3 = get_char(l2, ',')->Ok_0.1;
    assert(c3[0] == 'v');
    assert(c4[0] == ')');
    lemma_at_token(l3);
    lemma_var_id(l3, b.1, c4);
    let l4 = get_var_id(l3)->Ok_0.1;
    lemma_at_token(l4);
    lemma_char(l4, ')', k);
}

proof fn lemma_bits(l: LexView, bits: Seq<(u8, IRVarId)>, i: int, k: Seq<char>)
    requires
        0 <= i < bits.len(),
        l.skipped().rest == bit_text(bits[i]) + (bits_text(bits, i + 1) + (seq![']'] + k)),
    ensures
        reads(get_bits(l, bits.take(i)), bits, k),
    decreases bits.len() - i,
{
    broadcast use lemma_joined;

    let tail = bits_text(bits, i + 1) + (seq![']'] + k);
    let (end, l1) = try_char(l, ']');
    assert((bit_text(bits[i]) + tail)[0] == '(');
    assert(!end);
    lemma_at_token(l1);
    lemma_bit(l1, bits[i], tail);
    let l2 = get_bit(l1)->Ok_0.1;
    assert(bits.take(i + 1) =~= bits.take(i).push(bits[i]));
    if i + 1 < bits.len() {
        let next = bit_text(bits[i + 1]) + (bits_text(bits, i + 2) + (seq![']'] + k));
        assert(tail == seq![','] + next);
        assert(tail[0] == ',');
        lemma_at_token(l2);
        lemma_char(l2, ',', next);
        let l3 = try_char(l2, ',').1;
        assert(next[0] == '(');
        lemma_at_token(l3);
        lemma_bits(l3, bits, i + 1, k);
    } else {
        assert(tail =~= seq![']'] + k);
        assert(tail[0] == ']');
        lemma_at_token(l2);
        let l3 = try_char(l2, ',').1;
        assert(l3 == l2);
        lemma_char(l3, ']', k);
        assert(bits.take(i + 1) =~= bits);
    }
}

proof fn lemma_read_poly(
    l: LexView,
    ty: IRTypeId,
    coeffs: Seq<(Seq<IRVarId>, u8)>,
    constant: Constant,
    k: Seq<char>,
    t: Seq<char>,
)
    requires
        at_line_end(k, t),
        assoc_sorted(coeffs, vars_order()),
        l.rest == field("ty"@, type_text(ty)) + (field("const"@, constant_text(constant)) + (
        coeffs_text(coeffs, 0) + k)),
    ensures
        reads_line(get_poly(l), StmtView::Poly { ty, coeffs, constant }, t),
{
    lemma_keys();
    let k2 = coeffs_text(coeffs, 0) + k;
    let k1 = field("const"@, constant_text(constant)) + k2;
    assert(at_blank(k2)) by {
        if coeffs.len() > 0 {
            broadcast use lemma_joined;

            lemma_field_blank(
                "coeff"@,
                vars_text(coeffs[0].0),
                seq![':'] + (dec(coeffs[0].1 as nat) + (coeffs_text(coeffs, 1) + k)),
            );
        } else {
            assert(k2 =~= k);
        }
    }
    lemma_field_blank("const"@, constant_text(constant), k2);
    lemma_type_field(l, "ty"@, ty, k1);
    let l1 = get_type_field(l, "ty"@)->Ok_0.1;
    lemma_constant_field(l1, "const"@, constant, k2);
    let l2 = get_constant_field(l1, "const"@)->Ok_0.1;
    assert(coeffs.take(0) =~= Seq::empty());
    lemma_coeffs(l2, coeffs, 0, k, t);
}

proof fn lemma_read_shuffle(
    l: LexView,
    ty: IRTypeId,
    result_bits: Seq<(u8, IRVarId)>,
    k: Seq<char>,
    t: Seq<char>,
)
    requires
        at_line_end(k, t),
        l.rest == field("ty"@, type_text(ty)) + (field(
            "bits"@,
            seq!['['] + bits_text(result_bits, 0) + seq![']'],
        ) + k),
    ensures
        reads_line(get_shuffle(l), StmtView::Shuffle { result_bits, ty }, t),
{
    lemma_keys();
    let list = seq!['['] + bits_text(result_bits, 0) + seq![']'];
    let k1 = field("bits"@, list) + k;
    lemma_field_blank("bits"@, list, k);
    lemma_type_field(l, "ty"@, ty, k1);
    let l1 = get_type_field(l, "ty"@)->Ok_0.1;
    assert((list + k)[0] == '[');
    lemma_key(l1, "bits"@, list, k);
    let l2 = get_key(l1, "bits"@)->Ok_0.1;
    let inner = bits_text(result_bits, 0) + (seq![']'] + k);
    assert(list + k == seq!['['] + inner) by {
        broadcast use lemma_joined;

    }
    lemma_char(l2, '[', inner);
    let l3 = get_char(l2, '[')->Ok_0.1;
    if result_bits.len() == 0 {
        assert(inner =~= seq![']'] + k);
        assert(inner[0] == ']');
        lemma_at_token(l3);
        lemma_char(l3, ']', k);
        assert(Seq::<(u8, IRVarId)>::empty() =~= result_bits);
    } else {
        let more = bits_text(result_bits, 1);
        let first = bit_text(result_bits[0]);
        assert(Seq::<char>::empty() + first =~= first);
        assert(inner == first + (more + (seq![']'] + k))) by {
            broadcast use lemma_joined;

        }
        assert(inner[0] == '(');
        lemma_at_token(l3);
        lemma_bits(l3, result_bits, 0, k);
        assert(result_bits.take(0) =~= Seq::empty());
    }
    lemma_line_end(get_shuffle(l), StmtView::Shuffle { result_bits, ty }, k, t);
}

proof fn lemma_read_const(l: LexView, c: Constant, ty: IRTypeId, k: Seq<char>, t: Seq<char>)
    requires
        at_line_end(k, t),
        l.rest == spaced(constant_text(c)) + (field("ty"@, type_text(ty)) + k),
    ensures
        reads_line(get_const(l), StmtView::Const(c, ty), t),
{
    lemma_keys();
    let k1 = field("ty"@, type_text(ty)) + k;
    lemma_field_blank("ty"@, type_text(ty), k);
    lemma_spaced_constant(l, c, k1);
    let l1 = get_constant(l)->Ok_0.1;
    lemma_type_field(l1, "ty"@, ty, k);
    lemma_line_end(get_const(l), StmtView::Const(c, ty), k, t);
}

proof fn lemma_read_storage_read(l: LexView, storage: StorageId, ty: IRTypeId, addr: IRVarId, k: Seq<char>, t: Seq<char>)
    requires
        at_line_end(k, t),
        l.rest == field("storage"@, storage_text(storage)) + (field("ty"@, type_text(ty)) + (field("addr"@, var_text(addr)) + k)),
    ensures
        reads_line(get_storage_read(l), StmtView::StorageRead { storage, ty, addr }, t),
{
    lemma_keys();
    let k2 = field("addr"@, var_text(addr)) + k;
    let k1 = field("ty"@, type_text(ty)) + k2;
    lemma_field_blank("addr"@, var_text(addr), k);
    lemma_field_blank("ty"@, type_text(ty), k2);
    lemma_storage_field(l, "storage"@, storage, k1);
    let l1 = get_storage_field(l, "storage"@)->Ok_0.1;
    lemma_type_field(l1, "ty"@, ty, k2);
    let l2 = get_type_field(l1, "ty"@)->Ok_0.1;
    lemma_var_field(l2, "addr"@, addr, k);
    lemma_line_end(get_storage_read(l), StmtView::StorageRead { storage, ty, addr }, k, t);
}

proof fn lemma_read_storage_write(l: LexView, storage: StorageId, src: IRVarId, ty: IRTypeId, addr: IRVarId, k: Seq<char>, t: Seq<char>)
    requires
        at_line_end(k, t),
        l.rest == field("storage"@, storage_text(storage)) + (field("src"@, var_text(src)) + (field("ty"@, type_text(ty)) + (field("addr"@, var_text(addr)) + k))),
    ensures
        reads_line(get_storage_write(l), StmtView::StorageWrite { storage, src, ty, addr }, t),
{
    lemma_keys();
    let k3 = field("addr"@, var_text(addr)) + k;
    let k2 = field("ty"@, type_text(ty)) + k3;
    let k1 = field("src"@, var_text(src)) + k2;
    lemma_field_blank("addr"@, var_text(addr), k);
    lemma_field_blank("ty"@, type_text(ty), k3);
    lemma_field_blank("src"@, var_text(src), k2);
    lemma_storage_field(l, "storage"@, storage, k1);
    let l1 = get_storage_field(l, "storage"@)->Ok_0.1;
    lemma_var_field(l1, "src"@, src, k2);
    let l2 = get_var_field(l1, "src"@)->Ok_0.1;
    lemma_type_field(l2, "ty"@, ty, k3);
    let l3 = get_type_field(l2, "ty"@)->Ok_0.1;
    lemma_var_field(l3, "addr"@, addr, k);
    lemma_line_end(get_storage_write(l), StmtView::StorageWrite { storage, src, ty, addr }, k, t);
}

proof fn lemma_read_transmute(l: LexView, src: IRVarId, src_ty: IRTypeId, dst_ty: IRTypeId, k: Seq<char>, t: Seq<char>)
    requires
        at_line_end(k, t),
        l.rest == field("src"@, var_text(src)) + (field("src_ty"@, type_text(src_ty)) + (field("dst_ty"@, type_text(dst_ty)) + k)),
    ensures
        reads_line(get_transmute(l), StmtView::Transmute { src, src_ty, dst_ty }, t),
{
    lemma_keys();
    let k2 = field("dst_ty"@, type_text(dst_ty)) + k;
    let k1 = field("src_ty"@, type_text(src_ty)) + k2;
    lemma_field_blank("dst_ty"@, type_text(dst_ty), k);
    lemma_field_blank("src_ty"@, type_text(src_ty), k2);
    lemma_var_field(l, "src"@, src, k1);
    let l1 = get_var_field(l, "src"@)->Ok_0.1;
    lemma_type_field(l1, "src_ty"@, src_ty, k2);
    let l2 = get_type_field(l1, "src_ty"@)->Ok_0.1;
    lemma_type_field(l2, "dst_ty"@, dst_ty, k);
    lemma_line_end(get_transmute(l), StmtView::Transmute { src, src_ty, dst_ty }, k, t);
}

proof fn lemma_read_rol(l: LexView, src: IRVarId, ty: IRTypeId, n: usize, k: Seq<char>, t: Seq<char>)
    requires
        at_line_end(k, t),
        l.rest == field("src"@, var_text(src)) + (field("ty"@, type_text(ty)) + (field("n"@, usize_text(n)) + k)),
        n <= u32::MAX,
    ensures
        reads_line(get_rol(l), StmtView::Rol { src, ty, n }, t),
{
    lemma_keys();
    let k2 = field("n"@, usize_text(n)) + k;
    let k1 = field("ty"@, type_text(ty)) + k2;
    lemma_field_blank("n"@, usize_text(n), k);
    lemma_field_blank("ty"@, type_text(ty), k2);
    lemma_var_field(l, "src"@, src, k1);
    let l1 = get_var_field(l, "src"@)->Ok_0.1;
    lemma_type_field(l1, "ty"@, ty, k2);
    let l2 = get_type_field(l1, "ty"@)->Ok_0.1;
    lemma_usize_field(l2, "n"@, n, k);
    lemma_line_end(get_rol(l), StmtView::Rol { src, ty, n }, k, t);
}

proof fn lemma_read_ror(l: LexView, src: IRVarId, ty: IRTypeId, n: usize, k: Seq<char>, t: Seq<char>)
    requires
        at_line_end(k, t),
        l.rest == field("src"@, var_text(src)) + (field("ty"@, type_text(ty)) + (field("n"@, usize_text(n)) + k)),
        n <= u32::MAX,
    ensures
        reads_line(get_ror(l), StmtView::Ror { src, ty, n }, t),
{
    lemma_keys();
    let k2 = field("n"@, usize_text(n)) + k;
    let k1 = field("ty"@, type_text(ty)) + k2;
    lemma_field_blank("n"@, usize_text(n), k);
    lemma_field_blank("ty"@, type_text(ty), k2);
    lemma_var_field(l, "src"@, src, k1);
    let l1 = get_var_field(l, "src"@)->Ok_0.1;
    lemma_type_field(l1, "ty"@, ty, k2);
    let l2 = get_type_field(l1, "ty"@)->Ok_0.1;
    lemma_usize_field(l2, "n"@, n, k);
    lemma_line_end(get_ror(l), StmtView::Ror { src, ty, n }, k, t);
}

proof fn lemma_read_merge(l: LexView, ty: IRTypeId, parts: Seq<IRVarId>, k: Seq<char>, t: Seq<char>)
    requires
        at_line_end(k, t),
        l.rest == field("ty"@, type_text(ty)) + (field("parts"@, vars_text(parts)) + k),
    ensures
        reads_line(get_merge(l), StmtView::Merge { ty, parts }, t),
{
    lemma_keys();
    let k1 = field("parts"@, vars_text(parts)) + k;
    lemma_field_blank("parts"@, vars_text(parts), k);
    lemma_type_field(l, "ty"@, ty, k1);
    let l1 = get_type_field(l, "ty"@)->Ok_0.1;
    lemma_vars_field(l1, "parts"@, parts, k);
    lemma_line_end(get_merge(l), StmtView::Merge { ty, parts }, k, t);
}

proof fn lemma_read_splat(l: LexView, src: IRVarId, ty: IRTypeId, k: Seq<char>, t: Seq<char>)
    requires
        at_line_end(k, t),
        l.rest == field("src"@, var_text(src)) + (field("ty"@, type_text(ty)) + k),
    ensures
        reads_line(get_splat(l), StmtView::Splat { src, ty }, t),
{
    lemma_keys();
    let k1 = field("ty"@, type_text(ty)) + k;
    lemma_field_blank("ty"@, type_text(ty), k);
    lemma_var_field(l, "src"@, src, k1);
    let l1 = get_var_field(l, "src"@)->Ok_0.1;
    lemma_type_field(l1, "ty"@, ty, k);
    lemma_line_end(get_splat(l), StmtView::Splat { src, ty }, k, t);
}

proof fn lemma_read_oracle_call(l: LexView, name: Seq<char>, args: Seq<IRVarId>, output_tys: Seq<IRTypeId>, result_ty: IRTypeId, k: Seq<char>, t: Seq<char>)
    requires
        at_line_end(k, t),
        l.rest == spaced(name_text(name)) + (field("args"@, vars_text(args)) + (field("out_tys"@, types_text(output_tys)) + (field("result_ty"@, type_text(result_ty)) + k))),
    ensures
        reads_line(get_oracle_call(l), StmtView::OracleCall { name, args, output_tys, result_ty }, t),
{
    lemma_keys();
    let k3 = field("result_ty"@, type_text(result_ty)) + k;
    let k2 = field("out_tys"@, types_text(output_tys)) + k3;
    let k1 = field("args"@, vars_text(args)) + k2;
    lemma_field_blank("result_ty"@, type_text(result_ty), k);
    lemma_field_blank("out_tys"@, types_text(output_tys), k3);
    lemma_field_blank("args"@, vars_text(args), k2);
    lemma_spaced_name(l, name, k1);
    let l1 = get_name(l)->Ok_0.1;
    lemma_vars_field(l1, "args"@, args, k2);
    let l2 = get_vars_field(l1, "args"@)->Ok_0.1;
    lemma_types_field(l2, "out_tys"@, output_tys, k3);
    let l3 = get_types_field(l2, "out_tys"@)->Ok_0.1;
    lemma_type_field(l3, "result_ty"@, result_ty, k);
    lemma_line_end(get_oracle_call(l), StmtView::OracleCall { name, args, output_tys, result_ty }, k, t);
}

proof fn lemma_read_oracle_output(l: LexView, call: IRVarId, idx: usize, ty: IRTypeId, k: Seq<char>, t: Seq<char>)
    requires
        at_line_end(k, t),
        l.rest == field("call"@, var_text(call)) + (field("idx"@, usize_text(idx)) + (field("ty"@, type_text(ty)) + k)),
        idx <= u32::MAX,
    ensures
        reads_line(get_oracle_output(l), StmtView::OracleOutput { call, idx, ty }, t),
{
    lemma_keys();
    let k2 = field("ty"@, type_text(ty)) + k;
    let k1 = field("idx"@, usize_text(idx)) + k2;
    lemma_field_blank("ty"@, type_text(ty), k);
    lemma_field_blank("idx"@, usize_text(idx), k2);
    lemma_var_field(l, "call"@, call, k1);
    let l1 = get_var_field(l, "call"@)->Ok_0.1;
    lemma_usize_field(l1, "idx"@, idx, k2);
    let l2 = get_usize_field(l1, "idx"@)->Ok_0.1;
    lemma_type_field(l2, "ty"@, ty, k);
    lemma_line_end(get_oracle_output(l), StmtView::OracleOutput { call, idx, ty }, k, t);
}

proof fn lemma_read_action_call(l: LexView, name: Seq<char>, guard: IRVarId, args: Seq<IRVarId>, fallbacks: Seq<IRVarId>, output_tys: Seq<IRTypeId>, result_ty: IRTypeId, k: Seq<char>, t: Seq<char>)
    requires
        at_line_end(k, t),
        l.rest == spaced(name_text(name)) + (field("guard"@, var_text(guard)) + (field("args"@, vars_text(args)) + (field("fallbacks"@, vars_text(fallbacks)) + (field("out_tys"@, types_text(output_tys)) + (field("result_ty"@, type_text(result_ty)) + k))))),
    ensures
        reads_line(get_action_call(l), StmtView::ActionCall { name, guard, args, fallbacks, output_tys, result_ty }, t),
{
    lemma_keys();
    let k5 = field("result_ty"@, type_text(result_ty)) + k;
    let k4 = field("out_tys"@, types_text(output_tys)) + k5;
    let k3 = field("fallbacks"@, vars_text(fallbacks)) + k4;
    let k2 = field("args"@, vars_text(args)) + k3;
    let k1 = field("guard"@, var_text(guard)) + k2;
    lemma_field_blank("result_ty"@, type_text(result_ty), k);
    lemma_field_blank("out_tys"@, types_text(output_tys), k5);
    lemma_field_blank("fallbacks"@, vars_text(fallbacks), k4);
    lemma_field_blank("args"@, vars_text(args), k3);
    lemma_field_blank("guard"@, var_text(guard), k2);
    lemma_spaced_name(l, name, k1);
    let l1 = get_name(l)->Ok_0.1;
    lemma_var_field(l1, "guard"@, guard, k2);
    let l2 = get_var_field(l1, "guard"@)->Ok_0.1;
    lemma_vars_field(l2, "args"@, args, k3);
    let l3 = get_vars_field(l2, "args"@)->Ok_0.1;
    lemma_vars_field(l3, "fallbacks"@, fallbacks, k4);
    let l4 = get_vars_field(l3, "fallbacks"@)->Ok_0.1;
    lemma_types_field(l4, "out_tys"@, output_tys, k5);
    let l5 = get_types_field(l4, "out_tys"@)->Ok_0.1;
    lemma_type_field(l5, "result_ty"@, result_ty, k);
    lemma_line_end(get_action_call(l), StmtView::ActionCall { name, guard, args, fallbacks, output_tys, result_ty }, k, t);
}

proof fn lemma_read_action_output(l: LexView, call: IRVarId, idx: usize, ty: IRTypeId, k: Seq<char>, t: Seq<char>)
    requires
        at_line_end(k, t),
        l.rest == field("call"@, var_text(call)) + (field("idx"@, usize_text(idx)) + (field("ty"@, type_text(ty)) + k)),
        idx <= u32::MAX,
    ensures
        reads_line(get_action_output(l), StmtView::ActionOutput { call, idx, ty }, t),
{
    lemma_keys();
    let k2 = field("ty"@, type_text(ty)) + k;
    let k1 = field("idx"@, usize_text(idx)) + k2;
    lemma_field_blank("ty"@, type_text(ty), k);
    lemma_field_blank("idx"@, usize_text(idx), k2);
    lemma_var_field(l, "call"@, call, k1);
    let l1 = get_var_field(l, "call"@)->Ok_0.1;
    lemma_usize_field(l1, "idx"@, idx, k2);
    let l2 = get_usize_field(l1, "idx"@)->Ok_0.1;
    lemma_type_field(l2, "ty"@, ty, k);
    lemma_line_end(get_action_output(l), StmtView::ActionOutput { call, idx, ty }, k, t);
}

proof fn lemma_read_rng(l: LexView, name: Seq<char>, ty: IRTypeId, k: Seq<char>, t: Seq<char>)
    requires
        at_line_end(k, t),
        l.rest == spaced(name_text(name)) + (field("ty"@, type_text(ty)) + k),
    ensures
        reads_line(get_rng(l), StmtView::Rng { name, ty }, t),
{
    lemma_keys();
    let k1 = field("ty"@, type_text(ty)) + k;
    lemma_field_blank("ty"@, type_text(ty), k);
    lemma_spaced_name(l, name, k1);
    let l1 = get_name(l)->Ok_0.1;
    lemma_type_field(l1, "ty"@, ty, k);
    lemma_line_end(get_rng(l), StmtView::Rng { name, ty }, k, t);
}

/// The word of a statement.
#[verifier::opaque]
pub open spec fn stmt_word(s: StmtView) -> Seq<char> {
    match s {
        StmtView::Const(..) => "const"@,
        StmtView::StorageRead { .. } => "storage_read"@,
        StmtView::StorageWrite { .. } => "storage_write"@,
        StmtView::Transmute { .. } => "transmute"@,
        StmtView::Poly { .. } => "poly"@,
        StmtView::Rol { .. } => "rol"@,
        StmtView::Ror { .. } => "ror"@,
        StmtView::Merge { .. } => "merge"@,
        StmtView::Splat { .. } => "splat"@,
        StmtView::Shuffle { .. } => "shuffle"@,
        StmtView::OracleCall { .. } => "oracle_call"@,
        StmtView::OracleOutput { .. } => "oracle_output"@,
        StmtView::ActionCall { .. } => "action_call"@,
        StmtView::ActionOutput { .. } => "action_output"@,
        StmtView::Rng { .. } => "rng"@,
        StmtView::ActionStore { .. } => "<unknown-stmt>"@,
    }
}

/// What stands behind the word of a statement, with `k` behind it.
#[verifier::opaque]
pub open spec fn stmt_tail(s: StmtView, k: Seq<char>) -> Seq<char> {
    match s {
        StmtView::Const(c, ty) => spaced(constant_text(c)) + (field("ty"@, type_text(ty)) + k),
        StmtView::StorageRead { storage, ty, addr } => field("storage"@, storage_text(storage)) + (field("ty"@, type_text(ty)) + (field("addr"@, var_text(addr)) + k)),
        StmtView::StorageWrite { storage, src, ty, addr } => field("storage"@, storage_text(storage)) + (field("src"@, var_text(src)) + (field("ty"@, type_text(ty)) + (field("addr"@, var_text(addr)) + k))),
        StmtView::Transmute { src, src_ty, dst_ty } => field("src"@, var_text(src)) + (field("src_ty"@, type_text(src_ty)) + (field("dst_ty"@, type_text(dst_ty)) + k)),
        StmtView::Poly { ty, coeffs, constant } => field("ty"@, type_text(ty)) + (field(
            "const"@,
            constant_text(constant),
        ) + (coeffs_text(coeffs, 0) + k)),
        StmtView::Rol { src, ty, n } => field("src"@, var_text(src)) + (field("ty"@, type_text(ty)) + (field("n"@, usize_text(n)) + k)),
        StmtView::Ror { src, ty, n } => field("src"@, var_text(src)) + (field("ty"@, type_text(ty)) + (field("n"@, usize_text(n)) + k)),
        StmtView::Merge { ty, parts } => field("ty"@, type_text(ty)) + (field("parts"@, vars_text(parts)) + k),
        StmtView::Splat { src, ty } => field("src"@, var_text(src)) + (field("ty"@, type_text(ty)) + k),
        StmtView::Shuffle { result_bits, ty } => field("ty"@, type_text(ty)) + (field(
            "bits"@,
            seq!['['] + bits_text(result_bits, 0) + seq![']'],
        ) + k),
        StmtView::OracleCall { name, args, output_tys, result_ty } => spaced(name_text(name)) + (field("args"@, vars_text(args)) + (field("out_tys"@, types_text(output_tys)) + (field("result_ty"@, type_text(result_ty)) + k))),
        StmtView::OracleOutput { call, idx, ty } => field("call"@, var_text(call)) + (field("idx"@, usize_text(idx)) + (field("ty"@, type_text(ty)) + k)),
        StmtView::ActionCall { name, guard, args, fallbacks, output_tys, result_ty } => spaced(name_text(name)) + (field("guard"@, var_text(guard)) + (field("args"@, vars_text(args)) + (field("fallbacks"@, vars_text(fallbacks)) + (field("out_tys"@, types_text(output_tys)) + (field("result_ty"@, type_text(result_ty)) + k))))),
        StmtView::ActionOutput { call, idx, ty } => field("call"@, var_text(call)) + (field("idx"@, usize_text(idx)) + (field("ty"@, type_text(ty)) + k)),
        StmtView::Rng { name, ty } => spaced(name_text(name)) + (field("ty"@, type_text(ty)) + k),
        StmtView::ActionStore { .. } => k,
    }
}

/// A statement is its word and what stands behind it.
pub proof fn lemma_stmt_split(s: StmtView, k: Seq<char>)
    requires
        at_blank(k),
    ensures
        stmt_text(s) + k == stmt_word(s) + stmt_tail(s, k),
        at_blank(stmt_tail(s, k)),
{
    broadcast use lemma_joined;

    reveal(stmt_text);
    reveal(stmt_tail);
    reveal(stmt_word);

    match s {
        StmtView::Const(c, ty) => {
            lemma_field_blank(Seq::empty(), constant_text(c), field("ty"@, type_text(ty)) + k);
        },
        StmtView::StorageRead { storage, ty, addr } => {
            lemma_field_blank("storage"@, storage_text(storage), field("ty"@, type_text(ty)) + (field("addr"@, var_text(addr)) + k));
        },
        StmtView::StorageWrite { storage, src, ty, addr } => {
            lemma_field_blank("storage"@, storage_text(storage), field("src"@, var_text(src)) + (field("ty"@, type_text(ty)) + (field("addr"@, var_text(addr)) + k)));
        },
        StmtView::Transmute { src, src_ty, dst_ty } => {
            lemma_field_blank("src"@, var_text(src), field("src_ty"@, type_text(src_ty)) + (field("dst_ty"@, type_text(dst_ty)) + k));
        },
        StmtView::Poly { ty, coeffs, constant } => {
            lemma_field_blank(
                "ty"@,
                type_text(ty),
                field("const"@, constant_text(constant)) + (coeffs_text(coeffs, 0) + k),
            );
        },
        StmtView::Rol { src, ty, n } => {
            lemma_field_blank("src"@, var_text(src), field("ty"@, type_text(ty)) + (field("n"@, usize_text(n)) + k));
        },
        StmtView::Ror { src, ty, n } => {
            lemma_field_blank("src"@, var_text(src), field("ty"@, type_text(ty)) + (field("n"@, usize_text(n)) + k));
        },
        StmtView::Merge { ty, parts } => {
            lemma_field_blank("ty"@, type_text(ty), field("parts"@, vars_text(parts)) + k);
        },
        StmtView::Splat { src, ty } => {
            lemma_field_blank("src"@, var_text(src), field("ty"@, type_text(ty)) + k);
        },
        StmtView::Shuffle { result_bits, ty } => {
            lemma_field_blank(
                "ty"@,
                type_text(ty),
                field("bits"@, seq!['['] + bits_text(result_bits, 0) + seq![']']) + k,
            );
        },
        StmtView::OracleCall { name, args, output_tys, result_ty } => {
            lemma_field_blank(Seq::empty(), name_text(name), field("args"@, vars_text(args)) + (field("out_tys"@, types_text(output_tys)) + (field("result_ty"@, type_text(result_ty)) + k)));
        },
        StmtView::OracleOutput { call, idx, ty } => {
            lemma_field_blank("call"@, var_text(call), field("idx"@, usize_text(idx)) + (field("ty"@, type_text(ty)) + k));
        },
        StmtView::ActionCall { name, guard, args, fallbacks, output_tys, result_ty } => {
            lemma_field_blank(Seq::empty(), name_text(name), field("guard"@, var_text(guard)) + (field("args"@, vars_text(args)) + (field("fallbacks"@, vars_text(fallbacks)) + (field("out_tys"@, types_text(output_tys)) + (field("result_ty"@, type_text(result_ty)) + k)))));
        },
        StmtView::ActionOutput { call, idx, ty } => {
            lemma_field_blank("call"@, var_text(call), field("idx"@, usize_text(idx)) + (field("ty"@, type_text(ty)) + k));
        },
        StmtView::Rng { name, ty } => {
            lemma_field_blank(Seq::empty(), name_text(name), field("ty"@, type_text(ty)) + k);
        },
        StmtView::ActionStore { .. } => {},
    }
}

/// A statement is read back.
pub proof fn lemma_stmt(l: LexView, s: StmtView, k: Seq<char>, t: Seq<char>)
    requires
        stmt_writable(s),
        at_line_end(k, t),
        l.rest == stmt_tail(s, k),
    ensures
        is_name(stmt_word(s)),
        reads_line(get_stmt(stmt_word(s), l), s, t),
{
    reveal(stmt_tail);
    reveal(stmt_word);
    reveal(get_stmt);
    reveal(stmt_writable);
    lemma_stmt_words();
    match s {
        StmtView::Const(c, ty) => {
            lemma_read_const(l, c, ty, k, t);
        },
        StmtView::StorageRead { storage, ty, addr } => {
            lemma_read_storage_read(l, storage, ty, addr, k, t);
        },
        StmtView::StorageWrite { storage, src, ty, addr } => {
            lemma_read_storage_write(l, storage, src, ty, addr, k, t);
        },
        StmtView::Transmute { src, src_ty, dst_ty } => {
            lemma_read_transmute(l, src, src_ty, dst_ty, k, t);
        },
        StmtView::Poly { ty, coeffs, constant } => {
            lemma_read_poly(l, ty, coeffs, constant, k, t);
        },
        StmtView::Rol { src, ty, n } => {
            lemma_read_rol(l, src, ty, n, k, t);
        },
        StmtView::Ror { src, ty, n } => {
            lemma_read_ror(l, src, ty, n, k, t);
        },
        StmtView::Merge { ty, parts } => {
            lemma_read_merge(l, ty, parts, k, t);
        },
        StmtView::Splat { src, ty } => {
            lemma_read_splat(l, src, ty, k, t);
        },
        StmtView::Shuffle { result_bits, ty } => {
            lemma_read_shuffle(l, ty, result_bits, k, t);
        },
        StmtView::OracleCall { name, args, output_tys, result_ty } => {
            lemma_read_oracle_call(l, name, args, output_tys, result_ty, k, t);
        },
        StmtView::OracleOutput { call, idx, ty } => {
            lemma_read_oracle_output(l, call, idx, ty, k, t);
        },
        StmtView::ActionCall { name, guard, args, fallbacks, output_tys, result_ty } => {
            lemma_read_action_call(l, name, guard, args, fallbacks, output_tys, result_ty, k, t);
        },
        StmtView::ActionOutput { call, idx, ty } => {
            lemma_read_action_output(l, call, idx, ty, k, t);
        },
        StmtView::Rng { name, ty } => {
            lemma_read_rng(l, name, ty, k, t);
        },
        StmtView::ActionStore { .. } => {},
    }
}

} // verus!
