//! The words of the text format: what each statement and each end of a block
//! is written as, letter by letter, and what each word is read as.

use vstd::prelude::*;

use crate::boolar::{BIrStmt, BIrStmtView, BIrTermView, BIrTerminator};
use crate::common::StorageId;
use crate::fmt::dec;
use crate::ir::{case_views, vars_order, IRTerminator, IRVarId, Stmt, StmtView, TermView};
use crate::sorted::assoc_sorted;
use crate::text::bir::{bir_term_tail, bir_term_text, bir_term_word, get_bir_term, lemma_bir_term};
use crate::text::bir_stmt::{
    bir_stmt_tail, bir_stmt_text, bir_stmt_word, bir_stmt_writable, get_bir_stmt, lemma_bir_stmt,
};
use crate::text::fields::{
    constant_text, field, spaced, target_text, types_text, var_text, vars_text,
};
use crate::text::ir_stmt::{
    at_line_end, bits_text, coeffs_text, get_action_call, get_action_output, get_const, get_merge,
    get_oracle_call, get_oracle_output, get_poly, get_rng, get_rol, get_ror, get_shuffle, get_splat,
    get_stmt, get_storage_read, get_storage_write, get_transmute, lemma_stmt, reads_line, stmt_tail,
    stmt_text, stmt_word, stmt_writable,
};
use crate::text::ir_term::{
    cases_text, get_term, lemma_term, term_tail, term_text, term_word, term_writable,
};
use crate::text::lexer::LexView;
use crate::text::pieces::{at_blank, lemma_joined, quoted, reads};

verus! {

/// A variable by its number.
pub open spec fn named(v: IRVarId) -> Seq<char> {
    "v"@ + dec(v.0 as nat)
}

proof fn lemma_named(v: IRVarId)
    ensures
        var_text(v) == named(v),
{
    reveal_strlit("v");
    assert("v"@ =~= seq!['v']);
}

/// A first value behind a word and a blank.
proof fn lemma_word_spaced(start: Seq<char>, word: Seq<char>, v: Seq<char>)
    requires
        start == word + seq![' '],
    ensures
        word + spaced(v) == start + v,
        word.len() == 0 ==> spaced(v) == start + v,
{
    assert(word + spaced(v) =~= start + v);
    if word.len() == 0 {
        assert(spaced(v) =~= start + v);
    }
}

/// A first field behind a word.
proof fn lemma_word_field(start: Seq<char>, word: Seq<char>, key: Seq<char>, v: Seq<char>)
    requires
        start == word + (seq![' '] + key + seq!['=']),
    ensures
        word + field(key, v) == start + v,
        word.len() == 0 ==> field(key, v) == start + v,
{
    assert(word + field(key, v) =~= start + v);
    if word.len() == 0 {
        assert(field(key, v) =~= start + v);
    }
}

/// One value more.
proof fn lemma_more_spaced(so_far: Seq<char>, v: Seq<char>)
    ensures
        so_far + spaced(v) == so_far + " "@ + v,
{
    reveal_strlit(" ");
    assert(" "@ =~= seq![' ']);
    assert(so_far + spaced(v) =~= so_far + " "@ + v);
}

/// One field more.
proof fn lemma_more(so_far: Seq<char>, start: Seq<char>, key: Seq<char>, v: Seq<char>)
    requires
        start == seq![' '] + key + seq!['='],
    ensures
        so_far + field(key, v) == so_far + start + v,
{
    assert(so_far + field(key, v) =~= so_far + start + v);
}

/// The literals of the format, as they are put together.
proof fn lemma_literals()
    ensures
        " "@ == seq![' '],
        " "@ == Seq::empty() + seq![' '],
        " addr="@ == seq![' '] + "addr"@ + seq!['='],
        " addr="@ == Seq::empty() + (seq![' '] + "addr"@ + seq!['=']),
        " args="@ == seq![' '] + "args"@ + seq!['='],
        " args="@ == Seq::empty() + (seq![' '] + "args"@ + seq!['=']),
        " bit="@ == seq![' '] + "bit"@ + seq!['='],
        " bit="@ == Seq::empty() + (seq![' '] + "bit"@ + seq!['=']),
        " bits="@ == seq![' '] + "bits"@ + seq!['='],
        " bits="@ == Seq::empty() + (seq![' '] + "bits"@ + seq!['=']),
        " call="@ == seq![' '] + "call"@ + seq!['='],
        " call="@ == Seq::empty() + (seq![' '] + "call"@ + seq!['=']),
        " const="@ == seq![' '] + "const"@ + seq!['='],
        " const="@ == Seq::empty() + (seq![' '] + "const"@ + seq!['=']),
        " dst_ty="@ == seq![' '] + "dst_ty"@ + seq!['='],
        " dst_ty="@ == Seq::empty() + (seq![' '] + "dst_ty"@ + seq!['=']),
        " fallback="@ == seq![' '] + "fallback"@ + seq!['='],
        " fallback="@ == Seq::empty() + (seq![' '] + "fallback"@ + seq!['=']),
        " fallbacks="@ == seq![' '] + "fallbacks"@ + seq!['='],
        " fallbacks="@ == Seq::empty() + (seq![' '] + "fallbacks"@ + seq!['=']),
        " guard="@ == seq![' '] + "guard"@ + seq!['='],
        " guard="@ == Seq::empty() + (seq![' '] + "guard"@ + seq!['=']),
        " idx="@ == seq![' '] + "idx"@ + seq!['='],
        " idx="@ == Seq::empty() + (seq![' '] + "idx"@ + seq!['=']),
        " lane="@ == seq![' '] + "lane"@ + seq!['='],
        " lane="@ == Seq::empty() + (seq![' '] + "lane"@ + seq!['=']),
        " n="@ == seq![' '] + "n"@ + seq!['='],
        " n="@ == Seq::empty() + (seq![' '] + "n"@ + seq!['=']),
        " num_bits="@ == seq![' '] + "num_bits"@ + seq!['='],
        " num_bits="@ == Seq::empty() + (seq![' '] + "num_bits"@ + seq!['=']),
        " occurrence="@ == seq![' '] + "occurrence"@ + seq!['='],
        " occurrence="@ == Seq::empty() + (seq![' '] + "occurrence"@ + seq!['=']),
        " out_tys="@ == seq![' '] + "out_tys"@ + seq!['='],
        " out_tys="@ == Seq::empty() + (seq![' '] + "out_tys"@ + seq!['=']),
        " parts="@ == seq![' '] + "parts"@ + seq!['='],
        " parts="@ == Seq::empty() + (seq![' '] + "parts"@ + seq!['=']),
        " result_ty="@ == seq![' '] + "result_ty"@ + seq!['='],
        " result_ty="@ == Seq::empty() + (seq![' '] + "result_ty"@ + seq!['=']),
        " src="@ == seq![' '] + "src"@ + seq!['='],
        " src="@ == Seq::empty() + (seq![' '] + "src"@ + seq!['=']),
        " src_ty="@ == seq![' '] + "src_ty"@ + seq!['='],
        " src_ty="@ == Seq::empty() + (seq![' '] + "src_ty"@ + seq!['=']),
        " storage="@ == seq![' '] + "storage"@ + seq!['='],
        " storage="@ == Seq::empty() + (seq![' '] + "storage"@ + seq!['=']),
        " ty="@ == seq![' '] + "ty"@ + seq!['='],
        " ty="@ == Seq::empty() + (seq![' '] + "ty"@ + seq!['=']),
        "action_bit call="@ == "action_bit"@ + (seq![' '] + "call"@ + seq!['=']),
        "action_call "@ == "action_call"@ + seq![' '],
        "action_output call="@ == "action_output"@ + (seq![' '] + "call"@ + seq!['=']),
        "action_store_bit "@ == "action_store_bit"@ + seq![' '],
        "and "@ == "and"@ + seq![' '],
        "const "@ == "const"@ + seq![' '],
        "merge ty="@ == "merge"@ + (seq![' '] + "ty"@ + seq!['=']),
        "not "@ == "not"@ + seq![' '],
        "or "@ == "or"@ + seq![' '],
        "oracle_bit "@ == "oracle_bit"@ + seq![' '],
        "oracle_bit call="@ == "oracle_bit"@ + (seq![' '] + "call"@ + seq!['=']),
        "oracle_call "@ == "oracle_call"@ + seq![' '],
        "oracle_output call="@ == "oracle_output"@ + (seq![' '] + "call"@ + seq!['=']),
        "poly ty="@ == "poly"@ + (seq![' '] + "ty"@ + seq!['=']),
        "rng "@ == "rng"@ + seq![' '],
        "rng_bit "@ == "rng_bit"@ + seq![' '],
        "rol src="@ == "rol"@ + (seq![' '] + "src"@ + seq!['=']),
        "ror src="@ == "ror"@ + (seq![' '] + "src"@ + seq!['=']),
        "shuffle ty="@ == "shuffle"@ + (seq![' '] + "ty"@ + seq!['=']),
        "splat src="@ == "splat"@ + (seq![' '] + "src"@ + seq!['=']),
        "storage_read storage="@ == "storage_read"@ + (seq![' '] + "storage"@ + seq!['=']),
        "storage_write storage="@ == "storage_write"@ + (seq![' '] + "storage"@ + seq!['=']),
        "transmute src="@ == "transmute"@ + (seq![' '] + "src"@ + seq!['=']),
        "xor "@ == "xor"@ + seq![' '],
        "cond_jmp val="@ == "cond_jmp"@ + (seq![' '] + "val"@ + seq!['=']),
        " then="@ == seq![' '] + "then"@ + seq!['='],
        " then="@ == Seq::empty() + (seq![' '] + "then"@ + seq!['=']),
        " then_args="@ == seq![' '] + "then_args"@ + seq!['='],
        " then_args="@ == Seq::empty() + (seq![' '] + "then_args"@ + seq!['=']),
        " else="@ == seq![' '] + "else"@ + seq!['='],
        " else="@ == Seq::empty() + (seq![' '] + "else"@ + seq!['=']),
        " else_args="@ == seq![' '] + "else_args"@ + seq!['='],
        " else_args="@ == Seq::empty() + (seq![' '] + "else_args"@ + seq!['=']),
        "jmp_cond cond="@ == "jmp_cond"@ + (seq![' '] + "cond"@ + seq!['=']),
        "jmp_table index="@ == "jmp_table"@ + (seq![' '] + "index"@ + seq!['=']),
        "jmp "@ == "jmp"@ + seq![' '],
        " val="@ == seq![' '] + "val"@ + seq!['='],
        " val="@ == Seq::empty() + (seq![' '] + "val"@ + seq!['=']),
        " cond="@ == seq![' '] + "cond"@ + seq!['='],
        " cond="@ == Seq::empty() + (seq![' '] + "cond"@ + seq!['=']),
        " index="@ == seq![' '] + "index"@ + seq!['='],
        " index="@ == Seq::empty() + (seq![' '] + "index"@ + seq!['=']),
        "["@ == seq!['['],
        "]"@ == seq![']'],
        "v"@ == seq!['v'],
{
    reveal_strlit(" ");
    reveal_strlit(" addr=");
    reveal_strlit(" args=");
    reveal_strlit(" bit=");
    reveal_strlit(" bits=");
    reveal_strlit(" call=");
    reveal_strlit(" cond=");
    reveal_strlit(" const=");
    reveal_strlit(" dst_ty=");
    reveal_strlit(" else=");
    reveal_strlit(" else_args=");
    reveal_strlit(" fallback=");
    reveal_strlit(" fallbacks=");
    reveal_strlit(" guard=");
    reveal_strlit(" idx=");
    reveal_strlit(" index=");
    reveal_strlit(" lane=");
    reveal_strlit(" n=");
    reveal_strlit(" num_bits=");
    reveal_strlit(" occurrence=");
    reveal_strlit(" out_tys=");
    reveal_strlit(" parts=");
    reveal_strlit(" result_ty=");
    reveal_strlit(" src=");
    reveal_strlit(" src_ty=");
    reveal_strlit(" storage=");
    reveal_strlit(" then=");
    reveal_strlit(" then_args=");
    reveal_strlit(" ty=");
    reveal_strlit(" val=");
    reveal_strlit("[");
    reveal_strlit("]");
    reveal_strlit("action_bit");
    reveal_strlit("action_bit call=");
    reveal_strlit("action_call");
    reveal_strlit("action_call ");
    reveal_strlit("action_output");
    reveal_strlit("action_output call=");
    reveal_strlit("action_store_bit");
    reveal_strlit("action_store_bit ");
    reveal_strlit("addr");
    reveal_strlit("and");
    reveal_strlit("and ");
    reveal_strlit("args");
    reveal_strlit("bit");
    reveal_strlit("bits");
    reveal_strlit("call");
    reveal_strlit("cond");
    reveal_strlit("cond_jmp");
    reveal_strlit("cond_jmp val=");
    reveal_strlit("const");
    reveal_strlit("const ");
    reveal_strlit("dst_ty");
    reveal_strlit("else");
    reveal_strlit("else_args");
    reveal_strlit("fallback");
    reveal_strlit("fallbacks");
    reveal_strlit("guard");
    reveal_strlit("idx");
    reveal_strlit("index");
    reveal_strlit("jmp");
    reveal_strlit("jmp ");
    reveal_strlit("jmp_cond");
    reveal_strlit("jmp_cond cond=");
    reveal_strlit("jmp_table");
    reveal_strlit("jmp_table index=");
    reveal_strlit("lane");
    reveal_strlit("merge");
    reveal_strlit("merge ty=");
    reveal_strlit("n");
    reveal_strlit("not");
    reveal_strlit("not ");
    reveal_strlit("num_bits");
    reveal_strlit("occurrence");
    reveal_strlit("or");
    reveal_strlit("or ");
    reveal_strlit("oracle_bit");
    reveal_strlit("oracle_bit ");
    reveal_strlit("oracle_bit call=");
    reveal_strlit("oracle_call");
    reveal_strlit("oracle_call ");
    reveal_strlit("oracle_output");
    reveal_strlit("oracle_output call=");
    reveal_strlit("out_tys");
    reveal_strlit("parts");
    reveal_strlit("poly");
    reveal_strlit("poly ty=");
    reveal_strlit("result_ty");
    reveal_strlit("rng");
    reveal_strlit("rng ");
    reveal_strlit("rng_bit");
    reveal_strlit("rng_bit ");
    reveal_strlit("rol");
    reveal_strlit("rol src=");
    reveal_strlit("ror");
    reveal_strlit("ror src=");
    reveal_strlit("shuffle");
    reveal_strlit("shuffle ty=");
    reveal_strlit("splat");
    reveal_strlit("splat src=");
    reveal_strlit("src");
    reveal_strlit("src_ty");
    reveal_strlit("storage");
    reveal_strlit("storage_read");
    reveal_strlit("storage_read storage=");
    reveal_strlit("storage_write");
    reveal_strlit("storage_write storage=");
    reveal_strlit("then");
    reveal_strlit("then_args");
    reveal_strlit("transmute");
    reveal_strlit("transmute src=");
    reveal_strlit("ty");
    reveal_strlit("v");
    reveal_strlit("val");
    reveal_strlit("xor");
    reveal_strlit("xor ");
    assert(" "@ =~= seq![' ']);
    assert(" "@ =~= Seq::empty() + seq![' ']);
    assert(" addr="@ =~= seq![' '] + "addr"@ + seq!['=']);
    assert(" addr="@ =~= Seq::empty() + (seq![' '] + "addr"@ + seq!['=']));
    assert(" args="@ =~= seq![' '] + "args"@ + seq!['=']);
    assert(" args="@ =~= Seq::empty() + (seq![' '] + "args"@ + seq!['=']));
    assert(" bit="@ =~= seq![' '] + "bit"@ + seq!['=']);
    assert(" bit="@ =~= Seq::empty() + (seq![' '] + "bit"@ + seq!['=']));
    assert(" bits="@ =~= seq![' '] + "bits"@ + seq!['=']);
    assert(" bits="@ =~= Seq::empty() + (seq![' '] + "bits"@ + seq!['=']));
    assert(" call="@ =~= seq![' '] + "call"@ + seq!['=']);
    assert(" call="@ =~= Seq::empty() + (seq![' '] + "call"@ + seq!['=']));
    assert(" const="@ =~= seq![' '] + "const"@ + seq!['=']);
    assert(" const="@ =~= Seq::empty() + (seq![' '] + "const"@ + seq!['=']));
    assert(" dst_ty="@ =~= seq![' '] + "dst_ty"@ + seq!['=']);
    assert(" dst_ty="@ =~= Seq::empty() + (seq![' '] + "dst_ty"@ + seq!['=']));
    assert(" fallback="@ =~= seq![' '] + "fallback"@ + seq!['=']);
    assert(" fallback="@ =~= Seq::empty() + (seq![' '] + "fallback"@ + seq!['=']));
    assert(" fallbacks="@ =~= seq![' '] + "fallbacks"@ + seq!['=']);
    assert(" fallbacks="@ =~= Seq::empty() + (seq![' '] + "fallbacks"@ + seq!['=']));
    assert(" guard="@ =~= seq![' '] + "guard"@ + seq!['=']);
    assert(" guard="@ =~= Seq::empty() + (seq![' '] + "guard"@ + seq!['=']));
    assert(" idx="@ =~= seq![' '] + "idx"@ + seq!['=']);
    assert(" idx="@ =~= Seq::empty() + (seq![' '] + "idx"@ + seq!['=']));
    assert(" lane="@ =~= seq![' '] + "lane"@ + seq!['=']);
    assert(" lane="@ =~= Seq::empty() + (seq![' '] + "lane"@ + seq!['=']));
    assert(" n="@ =~= seq![' '] + "n"@ + seq!['=']);
    assert(" n="@ =~= Seq::empty() + (seq![' '] + "n"@ + seq!['=']));
    assert(" num_bits="@ =~= seq![' '] + "num_bits"@ + seq!['=']);
    assert(" num_bits="@ =~= Seq::empty() + (seq![' '] + "num_bits"@ + seq!['=']));
    assert(" occurrence="@ =~= seq![' '] + "occurrence"@ + seq!['=']);
    assert(" occurrence="@ =~= Seq::empty() + (seq![' '] + "occurrence"@ + seq!['=']));
    assert(" out_tys="@ =~= seq![' '] + "out_tys"@ + seq!['=']);
    assert(" out_tys="@ =~= Seq::empty() + (seq![' '] + "out_tys"@ + seq!['=']));
    assert(" parts="@ =~= seq![' '] + "parts"@ + seq!['=']);
    assert(" parts="@ =~= Seq::empty() + (seq![' '] + "parts"@ + seq!['=']));
    assert(" result_ty="@ =~= seq![' '] + "result_ty"@ + seq!['=']);
    assert(" result_ty="@ =~= Seq::empty() + (seq![' '] + "result_ty"@ + seq!['=']));
    assert(" src="@ =~= seq![' '] + "src"@ + seq!['=']);
    assert(" src="@ =~= Seq::empty() + (seq![' '] + "src"@ + seq!['=']));
    assert(" src_ty="@ =~= seq![' '] + "src_ty"@ + seq!['=']);
    assert(" src_ty="@ =~= Seq::empty() + (seq![' '] + "src_ty"@ + seq!['=']));
    assert(" storage="@ =~= seq![' '] + "storage"@ + seq!['=']);
    assert(" storage="@ =~= Seq::empty() + (seq![' '] + "storage"@ + seq!['=']));
    assert(" ty="@ =~= seq![' '] + "ty"@ + seq!['=']);
    assert(" ty="@ =~= Seq::empty() + (seq![' '] + "ty"@ + seq!['=']));
    assert("action_bit call="@ =~= "action_bit"@ + (seq![' '] + "call"@ + seq!['=']));
    assert("action_call "@ =~= "action_call"@ + seq![' ']);
    assert("action_output call="@ =~= "action_output"@ + (seq![' '] + "call"@ + seq!['=']));
    assert("action_store_bit "@ =~= "action_store_bit"@ + seq![' ']);
    assert("and "@ =~= "and"@ + seq![' ']);
    assert("const "@ =~= "const"@ + seq![' ']);
    assert("merge ty="@ =~= "merge"@ + (seq![' '] + "ty"@ + seq!['=']));
    assert("not "@ =~= "not"@ + seq![' ']);
    assert("or "@ =~= "or"@ + seq![' ']);
    assert("oracle_bit "@ =~= "oracle_bit"@ + seq![' ']);
    assert("oracle_bit call="@ =~= "oracle_bit"@ + (seq![' '] + "call"@ + seq!['=']));
    assert("oracle_call "@ =~= "oracle_call"@ + seq![' ']);
    assert("oracle_output call="@ =~= "oracle_output"@ + (seq![' '] + "call"@ + seq!['=']));
    assert("poly ty="@ =~= "poly"@ + (seq![' '] + "ty"@ + seq!['=']));
    assert("rng "@ =~= "rng"@ + seq![' ']);
    assert("rng_bit "@ =~= "rng_bit"@ + seq![' ']);
    assert("rol src="@ =~= "rol"@ + (seq![' '] + "src"@ + seq!['=']));
    assert("ror src="@ =~= "ror"@ + (seq![' '] + "src"@ + seq!['=']));
    assert("shuffle ty="@ =~= "shuffle"@ + (seq![' '] + "ty"@ + seq!['=']));
    assert("splat src="@ =~= "splat"@ + (seq![' '] + "src"@ + seq!['=']));
    assert("storage_read storage="@ =~= "storage_read"@ + (seq![' '] + "storage"@ + seq!['=']));
    assert("storage_write storage="@ =~= "storage_write"@ + (seq![' '] + "storage"@ + seq!['=']));
    assert("transmute src="@ =~= "transmute"@ + (seq![' '] + "src"@ + seq!['=']));
    assert("xor "@ =~= "xor"@ + seq![' ']);
    assert("cond_jmp val="@ =~= "cond_jmp"@ + (seq![' '] + "val"@ + seq!['=']));
    assert(" then="@ =~= seq![' '] + "then"@ + seq!['=']);
    assert(" then="@ =~= Seq::empty() + (seq![' '] + "then"@ + seq!['=']));
    assert(" then_args="@ =~= seq![' '] + "then_args"@ + seq!['=']);
    assert(" then_args="@ =~= Seq::empty() + (seq![' '] + "then_args"@ + seq!['=']));
    assert(" else="@ =~= seq![' '] + "else"@ + seq!['=']);
    assert(" else="@ =~= Seq::empty() + (seq![' '] + "else"@ + seq!['=']));
    assert(" else_args="@ =~= seq![' '] + "else_args"@ + seq!['=']);
    assert(" else_args="@ =~= Seq::empty() + (seq![' '] + "else_args"@ + seq!['=']));
    assert("jmp_cond cond="@ =~= "jmp_cond"@ + (seq![' '] + "cond"@ + seq!['=']));
    assert("jmp_table index="@ =~= "jmp_table"@ + (seq![' '] + "index"@ + seq!['=']));
    assert("jmp "@ =~= "jmp"@ + seq![' ']);
    assert(" val="@ =~= seq![' '] + "val"@ + seq!['=']);
    assert(" val="@ =~= Seq::empty() + (seq![' '] + "val"@ + seq!['=']));
    assert(" cond="@ =~= seq![' '] + "cond"@ + seq!['=']);
    assert(" cond="@ =~= Seq::empty() + (seq![' '] + "cond"@ + seq!['=']));
    assert(" index="@ =~= seq![' '] + "index"@ + seq!['=']);
    assert(" index="@ =~= Seq::empty() + (seq![' '] + "index"@ + seq!['=']));
    assert("["@ =~= seq!['[']);
    assert("]"@ =~= seq![']']);
    assert("v"@ =~= seq!['v']);
}

/// A boolean statement is written as its word and what it holds.
pub proof fn law_bir_stmt_written(s: BIrStmt)
    ensures
        match s {
            BIrStmt::Zero => s@ == (BIrStmtView::<IRVarId, StorageId>::Zero) && bir_stmt_text(s@)
                == "zero"@,
            BIrStmt::One => s@ == (BIrStmtView::<IRVarId, StorageId>::One) && bir_stmt_text(s@)
                == "one"@,
            BIrStmt::And(a, b) => s@ == (BIrStmtView::<IRVarId, StorageId>::And(a, b))
                && bir_stmt_text(s@) == "and "@ + named(a) + " "@ + named(b),
            BIrStmt::Or(a, b) => s@ == (BIrStmtView::<IRVarId, StorageId>::Or(a, b))
                && bir_stmt_text(s@) == "or "@ + named(a) + " "@ + named(b),
            BIrStmt::Xor(a, b) => s@ == (BIrStmtView::<IRVarId, StorageId>::Xor(a, b))
                && bir_stmt_text(s@) == "xor "@ + named(a) + " "@ + named(b),
            BIrStmt::Not(a) => s@ == (BIrStmtView::<IRVarId, StorageId>::Not(a))
                && bir_stmt_text(s@) == "not "@ + named(a),
            BIrStmt::OracleCall { name, args, num_bits } => s@ == (BIrStmtView::<IRVarId,
                StorageId>::OracleCall { name: name@, args: args@, num_bits }) && bir_stmt_text(s@)
                == "oracle_call "@ + quoted(name@) + " args="@ + vars_text(args@) + " num_bits="@
                + dec(num_bits as nat),
            BIrStmt::OracleBit { name, args, bit, occurrence } => s@ == (BIrStmtView::<IRVarId,
                StorageId>::OracleBit { name: name@, args: args@, bit, occurrence })
                && bir_stmt_text(s@) == "oracle_bit "@ + quoted(name@) + " args="@
                + vars_text(args@) + " bit="@ + dec(bit as nat) + " occurrence="@
                + dec(occurrence as nat),
            BIrStmt::OracleProjectedBit { call, bit } => s@ == (BIrStmtView::<IRVarId,
                StorageId>::OracleProjectedBit { call, bit }) && bir_stmt_text(s@)
                == "oracle_bit call="@ + named(call) + " bit="@ + dec(bit as nat),
            BIrStmt::ActionCall { name, guard, args, fallback, num_bits } => s@
                == (BIrStmtView::<IRVarId, StorageId>::ActionCall { name: name@, guard, args: args@,
                fallback: fallback@, num_bits }) && bir_stmt_text(s@) == "action_call "@
                + quoted(name@) + " guard="@ + named(guard) + " args="@ + vars_text(args@)
                + " fallback="@ + vars_text(fallback@) + " num_bits="@ + dec(num_bits as nat),
            BIrStmt::ActionBit { call, bit } => s@ == (BIrStmtView::<IRVarId,
                StorageId>::ActionBit { call, bit }) && bir_stmt_text(s@) == "action_bit call="@
                + named(call) + " bit="@ + dec(bit as nat),
            BIrStmt::ActionStoreBit { name, guard, args, fallback, storage, lane, addr, bit,
                occurrence } => s@ == (BIrStmtView::<IRVarId,
                StorageId>::ActionStoreBit { name: name@, guard, args: args@, fallback, storage,
                lane, addr: addr@, bit, occurrence }) && bir_stmt_text(s@) == "action_store_bit "@
                + quoted(name@) + " guard="@ + named(guard) + " args="@ + vars_text(args@)
                + " fallback="@ + named(fallback) + " storage="@ + dec(storage.0 as nat) + " lane="@
                + dec(lane.0 as nat) + " addr="@ + vars_text(addr@) + " bit="@ + dec(bit as nat)
                + " occurrence="@ + dec(occurrence as nat),
            BIrStmt::Rng { name } => s@ == (BIrStmtView::<IRVarId, StorageId>::Rng { name: name@ })
                && bir_stmt_text(s@) == "rng "@ + quoted(name@),
            BIrStmt::RngBit { name, bit, occurrence } => s@ == (BIrStmtView::<IRVarId,
                StorageId>::RngBit { name: name@, bit, occurrence }) && bir_stmt_text(s@)
                == "rng_bit "@ + quoted(name@) + " bit="@ + dec(bit as nat) + " occurrence="@
                + dec(occurrence as nat),
            BIrStmt::StorageRead { storage, lane, addr } => s@ == (BIrStmtView::<IRVarId,
                StorageId>::StorageRead { storage, lane, addr: addr@ }) && bir_stmt_text(s@)
                == "storage_read storage="@ + dec(storage.0 as nat) + " lane="@ + dec(lane.0 as nat)
                + " addr="@ + vars_text(addr@),
            BIrStmt::StorageWrite { storage, lane, src, addr } => s@ == (BIrStmtView::<IRVarId,
                StorageId>::StorageWrite { storage, lane, src, addr: addr@ }) && bir_stmt_text(s@)
                == "storage_write storage="@ + dec(storage.0 as nat) + " lane="@
                + dec(lane.0 as nat) + " src="@ + named(src) + " addr="@ + vars_text(addr@),
        },
{
    reveal(bir_stmt_text);
    lemma_literals();
    match s {
        BIrStmt::Zero => {
        },
        BIrStmt::One => {
        },
        BIrStmt::And(a, b) => {
            lemma_named(a);
            lemma_named(b);
            lemma_word_spaced("and "@, "and"@, named(a));
            lemma_more_spaced("and "@ + named(a), named(b));
        },
        BIrStmt::Or(a, b) => {
            lemma_named(a);
            lemma_named(b);
            lemma_word_spaced("or "@, "or"@, named(a));
            lemma_more_spaced("or "@ + named(a), named(b));
        },
        BIrStmt::Xor(a, b) => {
            lemma_named(a);
            lemma_named(b);
            lemma_word_spaced("xor "@, "xor"@, named(a));
            lemma_more_spaced("xor "@ + named(a), named(b));
        },
        BIrStmt::Not(a) => {
            lemma_named(a);
            lemma_word_spaced("not "@, "not"@, named(a));
        },
        BIrStmt::OracleCall { name, args, num_bits } => {
            lemma_word_spaced("oracle_call "@, "oracle_call"@, quoted(name@));
            lemma_more("oracle_call "@ + quoted(name@), " args="@, "args"@, vars_text(args@));
            lemma_more("oracle_call "@ + quoted(name@) + " args="@ + vars_text(args@),
                " num_bits="@, "num_bits"@, dec(num_bits as nat));
        },
        BIrStmt::OracleBit { name, args, bit, occurrence } => {
            lemma_word_spaced("oracle_bit "@, "oracle_bit"@, quoted(name@));
            lemma_more("oracle_bit "@ + quoted(name@), " args="@, "args"@, vars_text(args@));
            lemma_more("oracle_bit "@ + quoted(name@) + " args="@ + vars_text(args@), " bit="@,
                "bit"@, dec(bit as nat));
            lemma_more("oracle_bit "@ + quoted(name@) + " args="@ + vars_text(args@) + " bit="@
                + dec(bit as nat), " occurrence="@, "occurrence"@, dec(occurrence as nat));
        },
        BIrStmt::OracleProjectedBit { call, bit } => {
            lemma_named(call);
            lemma_word_field("oracle_bit call="@, "oracle_bit"@, "call"@, named(call));
            lemma_more("oracle_bit call="@ + named(call), " bit="@, "bit"@, dec(bit as nat));
        },
        BIrStmt::ActionCall { name, guard, args, fallback, num_bits } => {
            lemma_named(guard);
            lemma_word_spaced("action_call "@, "action_call"@, quoted(name@));
            lemma_more("action_call "@ + quoted(name@), " guard="@, "guard"@, named(guard));
            lemma_more("action_call "@ + quoted(name@) + " guard="@ + named(guard), " args="@,
                "args"@, vars_text(args@));
            lemma_more("action_call "@ + quoted(name@) + " guard="@ + named(guard) + " args="@
                + vars_text(args@), " fallback="@, "fallback"@, vars_text(fallback@));
            lemma_more("action_call "@ + quoted(name@) + " guard="@ + named(guard) + " args="@
                + vars_text(args@) + " fallback="@ + vars_text(fallback@), " num_bits="@,
                "num_bits"@, dec(num_bits as nat));
        },
        BIrStmt::ActionBit { call, bit } => {
            lemma_named(call);
            lemma_word_field("action_bit call="@, "action_bit"@, "call"@, named(call));
            lemma_more("action_bit call="@ + named(call), " bit="@, "bit"@, dec(bit as nat));
        },
        BIrStmt::ActionStoreBit { name, guard, args, fallback, storage, lane, addr, bit,
            occurrence } => {
            lemma_named(guard);
            lemma_named(fallback);
            lemma_word_spaced("action_store_bit "@, "action_store_bit"@, quoted(name@));
            lemma_more("action_store_bit "@ + quoted(name@), " guard="@, "guard"@, named(guard));
            lemma_more("action_store_bit "@ + quoted(name@) + " guard="@ + named(guard), " args="@,
                "args"@, vars_text(args@));
            lemma_more("action_store_bit "@ + quoted(name@) + " guard="@ + named(guard) + " args="@
                + vars_text(args@), " fallback="@, "fallback"@, named(fallback));
            lemma_more("action_store_bit "@ + quoted(name@) + " guard="@ + named(guard) + " args="@
                + vars_text(args@) + " fallback="@ + named(fallback), " storage="@, "storage"@,
                dec(storage.0 as nat));
            lemma_more("action_store_bit "@ + quoted(name@) + " guard="@ + named(guard) + " args="@
                + vars_text(args@) + " fallback="@ + named(fallback) + " storage="@
                + dec(storage.0 as nat), " lane="@, "lane"@, dec(lane.0 as nat));
            lemma_more("action_store_bit "@ + quoted(name@) + " guard="@ + named(guard) + " args="@
                + vars_text(args@) + " fallback="@ + named(fallback) + " storage="@
                + dec(storage.0 as nat) + " lane="@ + dec(lane.0 as nat), " addr="@, "addr"@,
                vars_text(addr@));
            lemma_more("action_store_bit "@ + quoted(name@) + " guard="@ + named(guard) + " args="@
                + vars_text(args@) + " fallback="@ + named(fallback) + " storage="@
                + dec(storage.0 as nat) + " lane="@ + dec(lane.0 as nat) + " addr="@
                + vars_text(addr@), " bit="@, "bit"@, dec(bit as nat));
            lemma_more("action_store_bit "@ + quoted(name@) + " guard="@ + named(guard) + " args="@
                + vars_text(args@) + " fallback="@ + named(fallback) + " storage="@
                + dec(storage.0 as nat) + " lane="@ + dec(lane.0 as nat) + " addr="@
                + vars_text(addr@) + " bit="@ + dec(bit as nat), " occurrence="@, "occurrence"@,
                dec(occurrence as nat));
        },
        BIrStmt::Rng { name } => {
            lemma_word_spaced("rng "@, "rng"@, quoted(name@));
        },
        BIrStmt::RngBit { name, bit, occurrence } => {
            lemma_word_spaced("rng_bit "@, "rng_bit"@, quoted(name@));
            lemma_more("rng_bit "@ + quoted(name@), " bit="@, "bit"@, dec(bit as nat));
            lemma_more("rng_bit "@ + quoted(name@) + " bit="@ + dec(bit as nat), " occurrence="@,
                "occurrence"@, dec(occurrence as nat));
        },
        BIrStmt::StorageRead { storage, lane, addr } => {
            lemma_word_field("storage_read storage="@, "storage_read"@, "storage"@,
                dec(storage.0 as nat));
            lemma_more("storage_read storage="@ + dec(storage.0 as nat), " lane="@, "lane"@,
                dec(lane.0 as nat));
            lemma_more("storage_read storage="@ + dec(storage.0 as nat) + " lane="@
                + dec(lane.0 as nat), " addr="@, "addr"@, vars_text(addr@));
        },
        BIrStmt::StorageWrite { storage, lane, src, addr } => {
            lemma_named(src);
            lemma_word_field("storage_write storage="@, "storage_write"@, "storage"@,
                dec(storage.0 as nat));
            lemma_more("storage_write storage="@ + dec(storage.0 as nat), " lane="@, "lane"@,
                dec(lane.0 as nat));
            lemma_more("storage_write storage="@ + dec(storage.0 as nat) + " lane="@
                + dec(lane.0 as nat), " src="@, "src"@, named(src));
            lemma_more("storage_write storage="@ + dec(storage.0 as nat) + " lane="@
                + dec(lane.0 as nat) + " src="@ + named(src), " addr="@, "addr"@, vars_text(addr@));
        },
    }
}

/// And it is read as it is written: behind its word and what stands there.
pub proof fn law_bir_stmt_read(l: LexView, s: BIrStmt, k: Seq<char>)
    requires
        at_blank(k),
        match s {
            BIrStmt::Zero => l.rest == k,
            BIrStmt::One => l.rest == k,
            BIrStmt::And(a, b) => l.rest == " "@ + named(a) + " "@ + named(b) + k,
            BIrStmt::Or(a, b) => l.rest == " "@ + named(a) + " "@ + named(b) + k,
            BIrStmt::Xor(a, b) => l.rest == " "@ + named(a) + " "@ + named(b) + k,
            BIrStmt::Not(a) => l.rest == " "@ + named(a) + k,
            BIrStmt::OracleCall { name, args, num_bits } => l.rest == " "@ + quoted(name@)
                + " args="@ + vars_text(args@) + " num_bits="@ + dec(num_bits as nat) + k
                && num_bits <= u32::MAX,
            BIrStmt::OracleBit { name, args, bit, occurrence } => l.rest == " "@ + quoted(name@)
                + " args="@ + vars_text(args@) + " bit="@ + dec(bit as nat) + " occurrence="@
                + dec(occurrence as nat) + k && bit <= u32::MAX,
            BIrStmt::OracleProjectedBit { call, bit } => l.rest == " call="@ + named(call)
                + " bit="@ + dec(bit as nat) + k && bit <= u32::MAX,
            BIrStmt::ActionCall { name, guard, args, fallback, num_bits } => l.rest == " "@
                + quoted(name@) + " guard="@ + named(guard) + " args="@ + vars_text(args@)
                + " fallback="@ + vars_text(fallback@) + " num_bits="@ + dec(num_bits as nat) + k
                && num_bits <= u32::MAX,
            BIrStmt::ActionBit { call, bit } => l.rest == " call="@ + named(call) + " bit="@
                + dec(bit as nat) + k && bit <= u32::MAX,
            BIrStmt::ActionStoreBit { name, guard, args, fallback, storage, lane, addr, bit,
                occurrence } => l.rest == " "@ + quoted(name@) + " guard="@ + named(guard)
                + " args="@ + vars_text(args@) + " fallback="@ + named(fallback) + " storage="@
                + dec(storage.0 as nat) + " lane="@ + dec(lane.0 as nat) + " addr="@
                + vars_text(addr@) + " bit="@ + dec(bit as nat) + " occurrence="@
                + dec(occurrence as nat) + k && bit <= u32::MAX,
            BIrStmt::Rng { name } => l.rest == " "@ + quoted(name@) + k,
            BIrStmt::RngBit { name, bit, occurrence } => l.rest == " "@ + quoted(name@) + " bit="@
                + dec(bit as nat) + " occurrence="@ + dec(occurrence as nat) + k && bit <= u32::MAX,
            BIrStmt::StorageRead { storage, lane, addr } => l.rest == " storage="@
                + dec(storage.0 as nat) + " lane="@ + dec(lane.0 as nat) + " addr="@
                + vars_text(addr@) + k,
            BIrStmt::StorageWrite { storage, lane, src, addr } => l.rest == " storage="@
                + dec(storage.0 as nat) + " lane="@ + dec(lane.0 as nat) + " src="@ + named(src)
                + " addr="@ + vars_text(addr@) + k,
        },
    ensures
        match s {
            BIrStmt::Zero => reads(get_bir_stmt("zero"@, l), s@, k),
            BIrStmt::One => reads(get_bir_stmt("one"@, l), s@, k),
            BIrStmt::And(..) => reads(get_bir_stmt("and"@, l), s@, k),
            BIrStmt::Or(..) => reads(get_bir_stmt("or"@, l), s@, k),
            BIrStmt::Xor(..) => reads(get_bir_stmt("xor"@, l), s@, k),
            BIrStmt::Not(..) => reads(get_bir_stmt("not"@, l), s@, k),
            BIrStmt::OracleCall { .. } => reads(get_bir_stmt("oracle_call"@, l), s@, k),
            BIrStmt::OracleBit { .. } => reads(get_bir_stmt("oracle_bit"@, l), s@, k),
            BIrStmt::OracleProjectedBit { .. } => reads(get_bir_stmt("oracle_bit"@, l), s@, k),
            BIrStmt::ActionCall { .. } => reads(get_bir_stmt("action_call"@, l), s@, k),
            BIrStmt::ActionBit { .. } => reads(get_bir_stmt("action_bit"@, l), s@, k),
            BIrStmt::ActionStoreBit { .. } => reads(get_bir_stmt("action_store_bit"@, l), s@, k),
            BIrStmt::Rng { .. } => reads(get_bir_stmt("rng"@, l), s@, k),
            BIrStmt::RngBit { .. } => reads(get_bir_stmt("rng_bit"@, l), s@, k),
            BIrStmt::StorageRead { .. } => reads(get_bir_stmt("storage_read"@, l), s@, k),
            BIrStmt::StorageWrite { .. } => reads(get_bir_stmt("storage_write"@, l), s@, k),
        },
{
    reveal(bir_stmt_tail);
    reveal(bir_stmt_word);
    reveal(bir_stmt_writable);
    lemma_literals();
    match s {
        BIrStmt::Zero => {
            assert(l.rest == bir_stmt_tail(s@, k));
        },
        BIrStmt::One => {
            assert(l.rest == bir_stmt_tail(s@, k));
        },
        BIrStmt::And(a, b) => {
            lemma_named(a);
            lemma_named(b);
            lemma_word_spaced(" "@, Seq::empty(), named(a));
            lemma_more_spaced(" "@ + named(a), named(b));
            lemma_joined(" "@ + named(a), spaced(named(b)), k);
            assert(l.rest == bir_stmt_tail(s@, k));
        },
        BIrStmt::Or(a, b) => {
            lemma_named(a);
            lemma_named(b);
            lemma_word_spaced(" "@, Seq::empty(), named(a));
            lemma_more_spaced(" "@ + named(a), named(b));
            lemma_joined(" "@ + named(a), spaced(named(b)), k);
            assert(l.rest == bir_stmt_tail(s@, k));
        },
        BIrStmt::Xor(a, b) => {
            lemma_named(a);
            lemma_named(b);
            lemma_word_spaced(" "@, Seq::empty(), named(a));
            lemma_more_spaced(" "@ + named(a), named(b));
            lemma_joined(" "@ + named(a), spaced(named(b)), k);
            assert(l.rest == bir_stmt_tail(s@, k));
        },
        BIrStmt::Not(a) => {
            lemma_named(a);
            lemma_word_spaced(" "@, Seq::empty(), named(a));
            assert(l.rest == bir_stmt_tail(s@, k));
        },
        BIrStmt::OracleCall { name, args, num_bits } => {
            lemma_word_spaced(" "@, Seq::empty(), quoted(name@));
            lemma_more(" "@ + quoted(name@), " args="@, "args"@, vars_text(args@));
            lemma_joined(" "@ + quoted(name@), field("args"@, vars_text(args@)), (field("num_bits"@,
                dec(num_bits as nat)) + k));
            lemma_more(" "@ + quoted(name@) + " args="@ + vars_text(args@), " num_bits="@,
                "num_bits"@, dec(num_bits as nat));
            lemma_joined(" "@ + quoted(name@) + " args="@ + vars_text(args@), field("num_bits"@,
                dec(num_bits as nat)), k);
            assert(l.rest == bir_stmt_tail(s@, k));
        },
        BIrStmt::OracleBit { name, args, bit, occurrence } => {
            lemma_word_spaced(" "@, Seq::empty(), quoted(name@));
            lemma_more(" "@ + quoted(name@), " args="@, "args"@, vars_text(args@));
            lemma_joined(" "@ + quoted(name@), field("args"@, vars_text(args@)), (field("bit"@,
                dec(bit as nat)) + (field("occurrence"@, dec(occurrence as nat)) + k)));
            lemma_more(" "@ + quoted(name@) + " args="@ + vars_text(args@), " bit="@, "bit"@,
                dec(bit as nat));
            lemma_joined(" "@ + quoted(name@) + " args="@ + vars_text(args@), field("bit"@,
                dec(bit as nat)), (field("occurrence"@, dec(occurrence as nat)) + k));
            lemma_more(" "@ + quoted(name@) + " args="@ + vars_text(args@) + " bit="@
                + dec(bit as nat), " occurrence="@, "occurrence"@, dec(occurrence as nat));
            lemma_joined(" "@ + quoted(name@) + " args="@ + vars_text(args@) + " bit="@
                + dec(bit as nat), field("occurrence"@, dec(occurrence as nat)), k);
            assert(l.rest == bir_stmt_tail(s@, k));
        },
        BIrStmt::OracleProjectedBit { call, bit } => {
            lemma_named(call);
            lemma_word_field(" call="@, Seq::empty(), "call"@, named(call));
            lemma_more(" call="@ + named(call), " bit="@, "bit"@, dec(bit as nat));
            lemma_joined(" call="@ + named(call), field("bit"@, dec(bit as nat)), k);
            assert(l.rest == bir_stmt_tail(s@, k));
        },
        BIrStmt::ActionCall { name, guard, args, fallback, num_bits } => {
            lemma_named(guard);
            lemma_word_spaced(" "@, Seq::empty(), quoted(name@));
            lemma_more(" "@ + quoted(name@), " guard="@, "guard"@, named(guard));
            lemma_joined(" "@ + quoted(name@), field("guard"@, named(guard)), (field("args"@,
                vars_text(args@)) + (field("fallback"@, vars_text(fallback@)) + (field("num_bits"@,
                dec(num_bits as nat)) + k))));
            lemma_more(" "@ + quoted(name@) + " guard="@ + named(guard), " args="@, "args"@,
                vars_text(args@));
            lemma_joined(" "@ + quoted(name@) + " guard="@ + named(guard), field("args"@,
                vars_text(args@)), (field("fallback"@, vars_text(fallback@)) + (field("num_bits"@,
                dec(num_bits as nat)) + k)));
            lemma_more(" "@ + quoted(name@) + " guard="@ + named(guard) + " args="@
                + vars_text(args@), " fallback="@, "fallback"@, vars_text(fallback@));
            lemma_joined(" "@ + quoted(name@) + " guard="@ + named(guard) + " args="@
                + vars_text(args@), field("fallback"@, vars_text(fallback@)), (field("num_bits"@,
                dec(num_bits as nat)) + k));
            lemma_more(" "@ + quoted(name@) + " guard="@ + named(guard) + " args="@
                + vars_text(args@) + " fallback="@ + vars_text(fallback@), " num_bits="@,
                "num_bits"@, dec(num_bits as nat));
            lemma_joined(" "@ + quoted(name@) + " guard="@ + named(guard) + " args="@
                + vars_text(args@) + " fallback="@ + vars_text(fallback@), field("num_bits"@,
                dec(num_bits as nat)), k);
            assert(l.rest == bir_stmt_tail(s@, k));
        },
        BIrStmt::ActionBit { call, bit } => {
            lemma_named(call);
            lemma_word_field(" call="@, Seq::empty(), "call"@, named(call));
            lemma_more(" call="@ + named(call), " bit="@, "bit"@, dec(bit as nat));
            lemma_joined(" call="@ + named(call), field("bit"@, dec(bit as nat)), k);
            assert(l.rest == bir_stmt_tail(s@, k));
        },
        BIrStmt::ActionStoreBit { name, guard, args, fallback, storage, lane, addr, bit,
            occurrence } => {
            lemma_named(guard);
            lemma_named(fallback);
            lemma_word_spaced(" "@, Seq::empty(), quoted(name@));
            lemma_more(" "@ + quoted(name@), " guard="@, "guard"@, named(guard));
            lemma_joined(" "@ + quoted(name@), field("guard"@, named(guard)), (field("args"@,
                vars_text(args@)) + (field("fallback"@, named(fallback)) + (field("storage"@,
                dec(storage.0 as nat)) + (field("lane"@, dec(lane.0 as nat)) + (field("addr"@,
                vars_text(addr@)) + (field("bit"@, dec(bit as nat)) + (field("occurrence"@,
                dec(occurrence as nat)) + k))))))));
            lemma_more(" "@ + quoted(name@) + " guard="@ + named(guard), " args="@, "args"@,
                vars_text(args@));
            lemma_joined(" "@ + quoted(name@) + " guard="@ + named(guard), field("args"@,
                vars_text(args@)), (field("fallback"@, named(fallback)) + (field("storage"@,
                dec(storage.0 as nat)) + (field("lane"@, dec(lane.0 as nat)) + (field("addr"@,
                vars_text(addr@)) + (field("bit"@, dec(bit as nat)) + (field("occurrence"@,
                dec(occurrence as nat)) + k)))))));
            lemma_more(" "@ + quoted(name@) + " guard="@ + named(guard) + " args="@
                + vars_text(args@), " fallback="@, "fallback"@, named(fallback));
            lemma_joined(" "@ + quoted(name@) + " guard="@ + named(guard) + " args="@
                + vars_text(args@), field("fallback"@, named(fallback)), (field("storage"@,
                dec(storage.0 as nat)) + (field("lane"@, dec(lane.0 as nat)) + (field("addr"@,
                vars_text(addr@)) + (field("bit"@, dec(bit as nat)) + (field("occurrence"@,
                dec(occurrence as nat)) + k))))));
            lemma_more(" "@ + quoted(name@) + " guard="@ + named(guard) + " args="@
                + vars_text(args@) + " fallback="@ + named(fallback), " storage="@, "storage"@,
                dec(storage.0 as nat));
            lemma_joined(" "@ + quoted(name@) + " guard="@ + named(guard) + " args="@
                + vars_text(args@) + " fallback="@ + named(fallback), field("storage"@,
                dec(storage.0 as nat)), (field("lane"@, dec(lane.0 as nat)) + (field("addr"@,
                vars_text(addr@)) + (field("bit"@, dec(bit as nat)) + (field("occurrence"@,
                dec(occurrence as nat)) + k)))));
            lemma_more(" "@ + quoted(name@) + " guard="@ + named(guard) + " args="@
                + vars_text(args@) + " fallback="@ + named(fallback) + " storage="@
                + dec(storage.0 as nat), " lane="@, "lane"@, dec(lane.0 as nat));
            lemma_joined(" "@ + quoted(name@) + " guard="@ + named(guard) + " args="@
                + vars_text(args@) + " fallback="@ + named(fallback) + " storage="@
                + dec(storage.0 as nat), field("lane"@, dec(lane.0 as nat)), (field("addr"@,
                vars_text(addr@)) + (field("bit"@, dec(bit as nat)) + (field("occurrence"@,
                dec(occurrence as nat)) + k))));
            lemma_more(" "@ + quoted(name@) + " guard="@ + named(guard) + " args="@
                + vars_text(args@) + " fallback="@ + named(fallback) + " storage="@
                + dec(storage.0 as nat) + " lane="@ + dec(lane.0 as nat), " addr="@, "addr"@,
                vars_text(addr@));
            lemma_joined(" "@ + quoted(name@) + " guard="@ + named(guard) + " args="@
                + vars_text(args@) + " fallback="@ + named(fallback) + " storage="@
                + dec(storage.0 as nat) + " lane="@ + dec(lane.0 as nat), field("addr"@,
                vars_text(addr@)), (field("bit"@, dec(bit as nat)) + (field("occurrence"@,
                dec(occurrence as nat)) + k)));
            lemma_more(" "@ + quoted(name@) + " guard="@ + named(guard) + " args="@
                + vars_text(args@) + " fallback="@ + named(fallback) + " storage="@
                + dec(storage.0 as nat) + " lane="@ + dec(lane.0 as nat) + " addr="@
                + vars_text(addr@), " bit="@, "bit"@, dec(bit as nat));
            lemma_joined(" "@ + quoted(name@) + " guard="@ + named(guard) + " args="@
                + vars_text(args@) + " fallback="@ + named(fallback) + " storage="@
                + dec(storage.0 as nat) + " lane="@ + dec(lane.0 as nat) + " addr="@
                + vars_text(addr@), field("bit"@, dec(bit as nat)), (field("occurrence"@,
                dec(occurrence as nat)) + k));
            lemma_more(" "@ + quoted(name@) + " guard="@ + named(guard) + " args="@
                + vars_text(args@) + " fallback="@ + named(fallback) + " storage="@
                + dec(storage.0 as nat) + " lane="@ + dec(lane.0 as nat) + " addr="@
                + vars_text(addr@) + " bit="@ + dec(bit as nat), " occurrence="@, "occurrence"@,
                dec(occurrence as nat));
            lemma_joined(" "@ + quoted(name@) + " guard="@ + named(guard) + " args="@
                + vars_text(args@) + " fallback="@ + named(fallback) + " storage="@
                + dec(storage.0 as nat) + " lane="@ + dec(lane.0 as nat) + " addr="@
                + vars_text(addr@) + " bit="@ + dec(bit as nat), field("occurrence"@,
                dec(occurrence as nat)), k);
            assert(l.rest == bir_stmt_tail(s@, k));
        },
        BIrStmt::Rng { name } => {
            lemma_word_spaced(" "@, Seq::empty(), quoted(name@));
            assert(l.rest == bir_stmt_tail(s@, k));
        },
        BIrStmt::RngBit { name, bit, occurrence } => {
            lemma_word_spaced(" "@, Seq::empty(), quoted(name@));
            lemma_more(" "@ + quoted(name@), " bit="@, "bit"@, dec(bit as nat));
            lemma_joined(" "@ + quoted(name@), field("bit"@, dec(bit as nat)), (field("occurrence"@,
                dec(occurrence as nat)) + k));
            lemma_more(" "@ + quoted(name@) + " bit="@ + dec(bit as nat), " occurrence="@,
                "occurrence"@, dec(occurrence as nat));
            lemma_joined(" "@ + quoted(name@) + " bit="@ + dec(bit as nat), field("occurrence"@,
                dec(occurrence as nat)), k);
            assert(l.rest == bir_stmt_tail(s@, k));
        },
        BIrStmt::StorageRead { storage, lane, addr } => {
            lemma_word_field(" storage="@, Seq::empty(), "storage"@, dec(storage.0 as nat));
            lemma_more(" storage="@ + dec(storage.0 as nat), " lane="@, "lane"@,
                dec(lane.0 as nat));
            lemma_joined(" storage="@ + dec(storage.0 as nat), field("lane"@, dec(lane.0 as nat)),
                (field("addr"@, vars_text(addr@)) + k));
            lemma_more(" storage="@ + dec(storage.0 as nat) + " lane="@ + dec(lane.0 as nat),
                " addr="@, "addr"@, vars_text(addr@));
            lemma_joined(" storage="@ + dec(storage.0 as nat) + " lane="@ + dec(lane.0 as nat),
                field("addr"@, vars_text(addr@)), k);
            assert(l.rest == bir_stmt_tail(s@, k));
        },
        BIrStmt::StorageWrite { storage, lane, src, addr } => {
            lemma_named(src);
            lemma_word_field(" storage="@, Seq::empty(), "storage"@, dec(storage.0 as nat));
            lemma_more(" storage="@ + dec(storage.0 as nat), " lane="@, "lane"@,
                dec(lane.0 as nat));
            lemma_joined(" storage="@ + dec(storage.0 as nat), field("lane"@, dec(lane.0 as nat)),
                (field("src"@, named(src)) + (field("addr"@, vars_text(addr@)) + k)));
            lemma_more(" storage="@ + dec(storage.0 as nat) + " lane="@ + dec(lane.0 as nat),
                " src="@, "src"@, named(src));
            lemma_joined(" storage="@ + dec(storage.0 as nat) + " lane="@ + dec(lane.0 as nat),
                field("src"@, named(src)), (field("addr"@, vars_text(addr@)) + k));
            lemma_more(" storage="@ + dec(storage.0 as nat) + " lane="@ + dec(lane.0 as nat)
                + " src="@ + named(src), " addr="@, "addr"@, vars_text(addr@));
            lemma_joined(" storage="@ + dec(storage.0 as nat) + " lane="@ + dec(lane.0 as nat)
                + " src="@ + named(src), field("addr"@, vars_text(addr@)), k);
            assert(l.rest == bir_stmt_tail(s@, k));
        },
    }
    lemma_bir_stmt(l, s@, k);
}

/// What is read behind a word is a statement of that word.
pub proof fn law_bir_stmt_words(kw: Seq<char>, l: LexView)
    ensures
        match get_bir_stmt(kw, l) {
            Ok((s, _)) => match s {
                BIrStmtView::Zero => kw == "zero"@,
                BIrStmtView::One => kw == "one"@,
                BIrStmtView::And(..) => kw == "and"@,
                BIrStmtView::Or(..) => kw == "or"@,
                BIrStmtView::Xor(..) => kw == "xor"@,
                BIrStmtView::Not(..) => kw == "not"@,
                BIrStmtView::OracleCall { .. } => kw == "oracle_call"@,
                BIrStmtView::OracleBit { .. } => kw == "oracle_bit"@,
                BIrStmtView::OracleProjectedBit { .. } => kw == "oracle_bit"@,
                BIrStmtView::ActionCall { .. } => kw == "action_call"@,
                BIrStmtView::ActionBit { .. } => kw == "action_bit"@,
                BIrStmtView::ActionStoreBit { .. } => kw == "action_store_bit"@,
                BIrStmtView::Rng { .. } => kw == "rng"@,
                BIrStmtView::RngBit { .. } => kw == "rng_bit"@,
                BIrStmtView::StorageRead { .. } => kw == "storage_read"@,
                BIrStmtView::StorageWrite { .. } => kw == "storage_write"@,
            },
            Err(_) => true,
        },
{
    reveal(get_bir_stmt);
}

/// A typed statement is written as its word and what it holds.
pub proof fn law_stmt_written(s: Stmt)
    ensures
        match s {
            Stmt::Const(c, ty) => s@ == (StmtView::Const(c, ty)) && stmt_text(s@) == "const "@
                + constant_text(c) + " ty="@ + dec(ty.0 as nat),
            Stmt::StorageRead { storage, ty, addr } => s@ == (StmtView::StorageRead { storage, ty,
                addr }) && stmt_text(s@) == "storage_read storage="@ + dec(storage.0 as nat)
                + " ty="@ + dec(ty.0 as nat) + " addr="@ + named(addr),
            Stmt::StorageWrite { storage, src, ty, addr } => s@
                == (StmtView::StorageWrite { storage, src, ty, addr }) && stmt_text(s@)
                == "storage_write storage="@ + dec(storage.0 as nat) + " src="@ + named(src)
                + " ty="@ + dec(ty.0 as nat) + " addr="@ + named(addr),
            Stmt::Transmute { src, src_ty, dst_ty } => s@ == (StmtView::Transmute { src, src_ty,
                dst_ty }) && stmt_text(s@) == "transmute src="@ + named(src) + " src_ty="@
                + dec(src_ty.0 as nat) + " dst_ty="@ + dec(dst_ty.0 as nat),
            Stmt::Poly { ty, coeffs, constant } => s@ == (StmtView::Poly { ty, coeffs: coeffs@,
                constant }) && stmt_text(s@) == "poly ty="@ + dec(ty.0 as nat) + " const="@
                + constant_text(constant) + coeffs_text(coeffs@, 0),
            Stmt::Rol { src, ty, n } => s@ == (StmtView::Rol { src, ty, n }) && stmt_text(s@)
                == "rol src="@ + named(src) + " ty="@ + dec(ty.0 as nat) + " n="@ + dec(n as nat),
            Stmt::Ror { src, ty, n } => s@ == (StmtView::Ror { src, ty, n }) && stmt_text(s@)
                == "ror src="@ + named(src) + " ty="@ + dec(ty.0 as nat) + " n="@ + dec(n as nat),
            Stmt::Merge { parts, ty } => s@ == (StmtView::Merge { parts: parts@, ty })
                && stmt_text(s@) == "merge ty="@ + dec(ty.0 as nat) + " parts="@
                + vars_text(parts@),
            Stmt::Splat { src, ty } => s@ == (StmtView::Splat { src, ty }) && stmt_text(s@)
                == "splat src="@ + named(src) + " ty="@ + dec(ty.0 as nat),
            Stmt::Shuffle { result_bits, ty } => s@
                == (StmtView::Shuffle { result_bits: result_bits@, ty }) && stmt_text(s@)
                == "shuffle ty="@ + dec(ty.0 as nat) + " bits="@ + ("["@ + bits_text(result_bits@,
                0) + "]"@),
            Stmt::OracleCall { name, args, output_tys, result_ty } => s@
                == (StmtView::OracleCall { name: name@, args: args@, output_tys: output_tys@,
                result_ty }) && stmt_text(s@) == "oracle_call "@ + quoted(name@) + " args="@
                + vars_text(args@) + " out_tys="@ + types_text(output_tys@) + " result_ty="@
                + dec(result_ty.0 as nat),
            Stmt::OracleOutput { call, idx, ty } => s@ == (StmtView::OracleOutput { call, idx, ty })
                && stmt_text(s@) == "oracle_output call="@ + named(call) + " idx="@
                + dec(idx as nat) + " ty="@ + dec(ty.0 as nat),
            Stmt::ActionCall { name, guard, args, fallbacks, output_tys, result_ty } => s@
                == (StmtView::ActionCall { name: name@, guard, args: args@, fallbacks: fallbacks@,
                output_tys: output_tys@, result_ty }) && stmt_text(s@) == "action_call "@
                + quoted(name@) + " guard="@ + named(guard) + " args="@ + vars_text(args@)
                + " fallbacks="@ + vars_text(fallbacks@) + " out_tys="@ + types_text(output_tys@)
                + " result_ty="@ + dec(result_ty.0 as nat),
            Stmt::ActionOutput { call, idx, ty } => s@ == (StmtView::ActionOutput { call, idx, ty })
                && stmt_text(s@) == "action_output call="@ + named(call) + " idx="@
                + dec(idx as nat) + " ty="@ + dec(ty.0 as nat),
            Stmt::Rng { name, ty } => s@ == (StmtView::Rng { name: name@, ty }) && stmt_text(s@)
                == "rng "@ + quoted(name@) + " ty="@ + dec(ty.0 as nat),
            Stmt::ActionStore { .. } => stmt_text(s@) == "<unknown-stmt>"@,
        },
{
    reveal(stmt_text);
    lemma_literals();
    match s {
        Stmt::Const(c, ty) => {
            lemma_word_spaced("const "@, "const"@, constant_text(c));
            lemma_more("const "@ + constant_text(c), " ty="@, "ty"@, dec(ty.0 as nat));
        },
        Stmt::StorageRead { storage, ty, addr } => {
            lemma_named(addr);
            lemma_word_field("storage_read storage="@, "storage_read"@, "storage"@,
                dec(storage.0 as nat));
            lemma_more("storage_read storage="@ + dec(storage.0 as nat), " ty="@, "ty"@,
                dec(ty.0 as nat));
            lemma_more("storage_read storage="@ + dec(storage.0 as nat) + " ty="@
                + dec(ty.0 as nat), " addr="@, "addr"@, named(addr));
        },
        Stmt::StorageWrite { storage, src, ty, addr } => {
            lemma_named(src);
            lemma_named(addr);
            lemma_word_field("storage_write storage="@, "storage_write"@, "storage"@,
                dec(storage.0 as nat));
            lemma_more("storage_write storage="@ + dec(storage.0 as nat), " src="@, "src"@,
                named(src));
            lemma_more("storage_write storage="@ + dec(storage.0 as nat) + " src="@ + named(src),
                " ty="@, "ty"@, dec(ty.0 as nat));
            lemma_more("storage_write storage="@ + dec(storage.0 as nat) + " src="@ + named(src)
                + " ty="@ + dec(ty.0 as nat), " addr="@, "addr"@, named(addr));
        },
        Stmt::Transmute { src, src_ty, dst_ty } => {
            lemma_named(src);
            lemma_word_field("transmute src="@, "transmute"@, "src"@, named(src));
            lemma_more("transmute src="@ + named(src), " src_ty="@, "src_ty"@,
                dec(src_ty.0 as nat));
            lemma_more("transmute src="@ + named(src) + " src_ty="@ + dec(src_ty.0 as nat),
                " dst_ty="@, "dst_ty"@, dec(dst_ty.0 as nat));
        },
        Stmt::Poly { ty, coeffs, constant } => {
            lemma_word_field("poly ty="@, "poly"@, "ty"@, dec(ty.0 as nat));
            lemma_more("poly ty="@ + dec(ty.0 as nat), " const="@, "const"@,
                constant_text(constant));
        },
        Stmt::Rol { src, ty, n } => {
            lemma_named(src);
            lemma_word_field("rol src="@, "rol"@, "src"@, named(src));
            lemma_more("rol src="@ + named(src), " ty="@, "ty"@, dec(ty.0 as nat));
            lemma_more("rol src="@ + named(src) + " ty="@ + dec(ty.0 as nat), " n="@, "n"@,
                dec(n as nat));
        },
        Stmt::Ror { src, ty, n } => {
            lemma_named(src);
            lemma_word_field("ror src="@, "ror"@, "src"@, named(src));
            lemma_more("ror src="@ + named(src), " ty="@, "ty"@, dec(ty.0 as nat));
            lemma_more("ror src="@ + named(src) + " ty="@ + dec(ty.0 as nat), " n="@, "n"@,
                dec(n as nat));
        },
        Stmt::Merge { parts, ty } => {
            lemma_word_field("merge ty="@, "merge"@, "ty"@, dec(ty.0 as nat));
            lemma_more("merge ty="@ + dec(ty.0 as nat), " parts="@, "parts"@, vars_text(parts@));
        },
        Stmt::Splat { src, ty } => {
            lemma_named(src);
            lemma_word_field("splat src="@, "splat"@, "src"@, named(src));
            lemma_more("splat src="@ + named(src), " ty="@, "ty"@, dec(ty.0 as nat));
        },
        Stmt::Shuffle { result_bits, ty } => {
            lemma_word_field("shuffle ty="@, "shuffle"@, "ty"@, dec(ty.0 as nat));
            lemma_more("shuffle ty="@ + dec(ty.0 as nat), " bits="@, "bits"@, ("["@
                + bits_text(result_bits@, 0) + "]"@));
        },
        Stmt::OracleCall { name, args, output_tys, result_ty } => {
            lemma_word_spaced("oracle_call "@, "oracle_call"@, quoted(name@));
            lemma_more("oracle_call "@ + quoted(name@), " args="@, "args"@, vars_text(args@));
            lemma_more("oracle_call "@ + quoted(name@) + " args="@ + vars_text(args@), " out_tys="@,
                "out_tys"@, types_text(output_tys@));
            lemma_more("oracle_call "@ + quoted(name@) + " args="@ + vars_text(args@) + " out_tys="@
                + types_text(output_tys@), " result_ty="@, "result_ty"@, dec(result_ty.0 as nat));
        },
        Stmt::OracleOutput { call, idx, ty } => {
            lemma_named(call);
            lemma_word_field("oracle_output call="@, "oracle_output"@, "call"@, named(call));
            lemma_more("oracle_output call="@ + named(call), " idx="@, "idx"@, dec(idx as nat));
            lemma_more("oracle_output call="@ + named(call) + " idx="@ + dec(idx as nat), " ty="@,
                "ty"@, dec(ty.0 as nat));
        },
        Stmt::ActionCall { name, guard, args, fallbacks, output_tys, result_ty } => {
            lemma_named(guard);
            lemma_word_spaced("action_call "@, "action_call"@, quoted(name@));
            lemma_more("action_call "@ + quoted(name@), " guard="@, "guard"@, named(guard));
            lemma_more("action_call "@ + quoted(name@) + " guard="@ + named(guard), " args="@,
                "args"@, vars_text(args@));
            lemma_more("action_call "@ + quoted(name@) + " guard="@ + named(guard) + " args="@
                + vars_text(args@), " fallbacks="@, "fallbacks"@, vars_text(fallbacks@));
            lemma_more("action_call "@ + quoted(name@) + " guard="@ + named(guard) + " args="@
                + vars_text(args@) + " fallbacks="@ + vars_text(fallbacks@), " out_tys="@,
                "out_tys"@, types_text(output_tys@));
            lemma_more("action_call "@ + quoted(name@) + " guard="@ + named(guard) + " args="@
                + vars_text(args@) + " fallbacks="@ + vars_text(fallbacks@) + " out_tys="@
                + types_text(output_tys@), " result_ty="@, "result_ty"@, dec(result_ty.0 as nat));
        },
        Stmt::ActionOutput { call, idx, ty } => {
            lemma_named(call);
            lemma_word_field("action_output call="@, "action_output"@, "call"@, named(call));
            lemma_more("action_output call="@ + named(call), " idx="@, "idx"@, dec(idx as nat));
            lemma_more("action_output call="@ + named(call) + " idx="@ + dec(idx as nat), " ty="@,
                "ty"@, dec(ty.0 as nat));
        },
        Stmt::Rng { name, ty } => {
            lemma_word_spaced("rng "@, "rng"@, quoted(name@));
            lemma_more("rng "@ + quoted(name@), " ty="@, "ty"@, dec(ty.0 as nat));
        },
        Stmt::ActionStore { .. } => {},
    }
}

/// And it is read as it is written: behind its word and what stands there.
pub proof fn law_stmt_read(l: LexView, s: Stmt, k: Seq<char>, t: Seq<char>)
    requires
        at_line_end(k, t),
        match s {
            Stmt::Const(c, ty) => l.rest == " "@ + constant_text(c) + " ty="@ + dec(ty.0 as nat)
                + k,
            Stmt::StorageRead { storage, ty, addr } => l.rest == " storage="@
                + dec(storage.0 as nat) + " ty="@ + dec(ty.0 as nat) + " addr="@ + named(addr) + k,
            Stmt::StorageWrite { storage, src, ty, addr } => l.rest == " storage="@
                + dec(storage.0 as nat) + " src="@ + named(src) + " ty="@ + dec(ty.0 as nat)
                + " addr="@ + named(addr) + k,
            Stmt::Transmute { src, src_ty, dst_ty } => l.rest == " src="@ + named(src) + " src_ty="@
                + dec(src_ty.0 as nat) + " dst_ty="@ + dec(dst_ty.0 as nat) + k,
            Stmt::Poly { ty, coeffs, constant } => l.rest == " ty="@ + dec(ty.0 as nat) + " const="@
                + constant_text(constant) + coeffs_text(coeffs@, 0) + k && assoc_sorted(coeffs@,
                vars_order()),
            Stmt::Rol { src, ty, n } => l.rest == " src="@ + named(src) + " ty="@ + dec(ty.0 as nat)
                + " n="@ + dec(n as nat) + k && n <= u32::MAX,
            Stmt::Ror { src, ty, n } => l.rest == " src="@ + named(src) + " ty="@ + dec(ty.0 as nat)
                + " n="@ + dec(n as nat) + k && n <= u32::MAX,
            Stmt::Merge { parts, ty } => l.rest == " ty="@ + dec(ty.0 as nat) + " parts="@
                + vars_text(parts@) + k,
            Stmt::Splat { src, ty } => l.rest == " src="@ + named(src) + " ty="@ + dec(ty.0 as nat)
                + k,
            Stmt::Shuffle { result_bits, ty } => l.rest == " ty="@ + dec(ty.0 as nat) + " bits="@
                + ("["@ + bits_text(result_bits@, 0) + "]"@) + k,
            Stmt::OracleCall { name, args, output_tys, result_ty } => l.rest == " "@ + quoted(name@)
                + " args="@ + vars_text(args@) + " out_tys="@ + types_text(output_tys@)
                + " result_ty="@ + dec(result_ty.0 as nat) + k,
            Stmt::OracleOutput { call, idx, ty } => l.rest == " call="@ + named(call) + " idx="@
                + dec(idx as nat) + " ty="@ + dec(ty.0 as nat) + k && idx <= u32::MAX,
            Stmt::ActionCall { name, guard, args, fallbacks, output_tys, result_ty } => l.rest
                == " "@ + quoted(name@) + " guard="@ + named(guard) + " args="@ + vars_text(args@)
                + " fallbacks="@ + vars_text(fallbacks@) + " out_tys="@ + types_text(output_tys@)
                + " result_ty="@ + dec(result_ty.0 as nat) + k,
            Stmt::ActionOutput { call, idx, ty } => l.rest == " call="@ + named(call) + " idx="@
                + dec(idx as nat) + " ty="@ + dec(ty.0 as nat) + k && idx <= u32::MAX,
            Stmt::Rng { name, ty } => l.rest == " "@ + quoted(name@) + " ty="@ + dec(ty.0 as nat)
                + k,
            Stmt::ActionStore { .. } => false,
        },
    ensures
        match s {
            Stmt::Const(..) => reads_line(get_stmt("const"@, l), s@, t),
            Stmt::StorageRead { .. } => reads_line(get_stmt("storage_read"@, l), s@, t),
            Stmt::StorageWrite { .. } => reads_line(get_stmt("storage_write"@, l), s@, t),
            Stmt::Transmute { .. } => reads_line(get_stmt("transmute"@, l), s@, t),
            Stmt::Poly { .. } => reads_line(get_stmt("poly"@, l), s@, t),
            Stmt::Rol { .. } => reads_line(get_stmt("rol"@, l), s@, t),
            Stmt::Ror { .. } => reads_line(get_stmt("ror"@, l), s@, t),
            Stmt::Merge { .. } => reads_line(get_stmt("merge"@, l), s@, t),
            Stmt::Splat { .. } => reads_line(get_stmt("splat"@, l), s@, t),
            Stmt::Shuffle { .. } => reads_line(get_stmt("shuffle"@, l), s@, t),
            Stmt::OracleCall { .. } => reads_line(get_stmt("oracle_call"@, l), s@, t),
            Stmt::OracleOutput { .. } => reads_line(get_stmt("oracle_output"@, l), s@, t),
            Stmt::ActionCall { .. } => reads_line(get_stmt("action_call"@, l), s@, t),
            Stmt::ActionOutput { .. } => reads_line(get_stmt("action_output"@, l), s@, t),
            Stmt::Rng { .. } => reads_line(get_stmt("rng"@, l), s@, t),
            Stmt::ActionStore { .. } => false,
        },
{
    reveal(stmt_tail);
    reveal(stmt_word);
    reveal(stmt_writable);
    lemma_literals();
    match s {
        Stmt::Const(c, ty) => {
            lemma_word_spaced(" "@, Seq::empty(), constant_text(c));
            lemma_more(" "@ + constant_text(c), " ty="@, "ty"@, dec(ty.0 as nat));
            lemma_joined(" "@ + constant_text(c), field("ty"@, dec(ty.0 as nat)), k);
            assert(l.rest == stmt_tail(s@, k));
        },
        Stmt::StorageRead { storage, ty, addr } => {
            lemma_named(addr);
            lemma_word_field(" storage="@, Seq::empty(), "storage"@, dec(storage.0 as nat));
            lemma_more(" storage="@ + dec(storage.0 as nat), " ty="@, "ty"@, dec(ty.0 as nat));
            lemma_joined(" storage="@ + dec(storage.0 as nat), field("ty"@, dec(ty.0 as nat)),
                (field("addr"@, named(addr)) + k));
            lemma_more(" storage="@ + dec(storage.0 as nat) + " ty="@ + dec(ty.0 as nat), " addr="@,
                "addr"@, named(addr));
            lemma_joined(" storage="@ + dec(storage.0 as nat) + " ty="@ + dec(ty.0 as nat),
                field("addr"@, named(addr)), k);
            assert(l.rest == stmt_tail(s@, k));
        },
        Stmt::StorageWrite { storage, src, ty, addr } => {
            lemma_named(src);
            lemma_named(addr);
            lemma_word_field(" storage="@, Seq::empty(), "storage"@, dec(storage.0 as nat));
            lemma_more(" storage="@ + dec(storage.0 as nat), " src="@, "src"@, named(src));
            lemma_joined(" storage="@ + dec(storage.0 as nat), field("src"@, named(src)),
                (field("ty"@, dec(ty.0 as nat)) + (field("addr"@, named(addr)) + k)));
            lemma_more(" storage="@ + dec(storage.0 as nat) + " src="@ + named(src), " ty="@, "ty"@,
                dec(ty.0 as nat));
            lemma_joined(" storage="@ + dec(storage.0 as nat) + " src="@ + named(src), field("ty"@,
                dec(ty.0 as nat)), (field("addr"@, named(addr)) + k));
            lemma_more(" storage="@ + dec(storage.0 as nat) + " src="@ + named(src) + " ty="@
                + dec(ty.0 as nat), " addr="@, "addr"@, named(addr));
            lemma_joined(" storage="@ + dec(storage.0 as nat) + " src="@ + named(src) + " ty="@
                + dec(ty.0 as nat), field("addr"@, named(addr)), k);
            assert(l.rest == stmt_tail(s@, k));
        },
        Stmt::Transmute { src, src_ty, dst_ty } => {
            lemma_named(src);
            lemma_word_field(" src="@, Seq::empty(), "src"@, named(src));
            lemma_more(" src="@ + named(src), " src_ty="@, "src_ty"@, dec(src_ty.0 as nat));
            lemma_joined(" src="@ + named(src), field("src_ty"@, dec(src_ty.0 as nat)),
                (field("dst_ty"@, dec(dst_ty.0 as nat)) + k));
            lemma_more(" src="@ + named(src) + " src_ty="@ + dec(src_ty.0 as nat), " dst_ty="@,
                "dst_ty"@, dec(dst_ty.0 as nat));
            lemma_joined(" src="@ + named(src) + " src_ty="@ + dec(src_ty.0 as nat),
                field("dst_ty"@, dec(dst_ty.0 as nat)), k);
            assert(l.rest == stmt_tail(s@, k));
        },
        Stmt::Poly { ty, coeffs, constant } => {
            lemma_word_field(" ty="@, Seq::empty(), "ty"@, dec(ty.0 as nat));
            lemma_more(" ty="@ + dec(ty.0 as nat), " const="@, "const"@, constant_text(constant));
            lemma_joined(" ty="@ + dec(ty.0 as nat), field("const"@, constant_text(constant)),
                (coeffs_text(coeffs@, 0) + k));
            lemma_joined(" ty="@ + dec(ty.0 as nat) + " const="@ + constant_text(constant),
                coeffs_text(coeffs@, 0), k);
            assert(l.rest == stmt_tail(s@, k));
        },
        Stmt::Rol { src, ty, n } => {
            lemma_named(src);
            lemma_word_field(" src="@, Seq::empty(), "src"@, named(src));
            lemma_more(" src="@ + named(src), " ty="@, "ty"@, dec(ty.0 as nat));
            lemma_joined(" src="@ + named(src), field("ty"@, dec(ty.0 as nat)), (field("n"@,
                dec(n as nat)) + k));
            lemma_more(" src="@ + named(src) + " ty="@ + dec(ty.0 as nat), " n="@, "n"@,
                dec(n as nat));
            lemma_joined(" src="@ + named(src) + " ty="@ + dec(ty.0 as nat), field("n"@,
                dec(n as nat)), k);
            assert(l.rest == stmt_tail(s@, k));
        },
        Stmt::Ror { src, ty, n } => {
            lemma_named(src);
            lemma_word_field(" src="@, Seq::empty(), "src"@, named(src));
            lemma_more(" src="@ + named(src), " ty="@, "ty"@, dec(ty.0 as nat));
            lemma_joined(" src="@ + named(src), field("ty"@, dec(ty.0 as nat)), (field("n"@,
                dec(n as nat)) + k));
            lemma_more(" src="@ + named(src) + " ty="@ + dec(ty.0 as nat), " n="@, "n"@,
                dec(n as nat));
            lemma_joined(" src="@ + named(src) + " ty="@ + dec(ty.0 as nat), field("n"@,
                dec(n as nat)), k);
            assert(l.rest == stmt_tail(s@, k));
        },
        Stmt::Merge { parts, ty } => {
            lemma_word_field(" ty="@, Seq::empty(), "ty"@, dec(ty.0 as nat));
            lemma_more(" ty="@ + dec(ty.0 as nat), " parts="@, "parts"@, vars_text(parts@));
            lemma_joined(" ty="@ + dec(ty.0 as nat), field("parts"@, vars_text(parts@)), k);
            assert(l.rest == stmt_tail(s@, k));
        },
        Stmt::Splat { src, ty } => {
            lemma_named(src);
            lemma_word_field(" src="@, Seq::empty(), "src"@, named(src));
            lemma_more(" src="@ + named(src), " ty="@, "ty"@, dec(ty.0 as nat));
            lemma_joined(" src="@ + named(src), field("ty"@, dec(ty.0 as nat)), k);
            assert(l.rest == stmt_tail(s@, k));
        },
        Stmt::Shuffle { result_bits, ty } => {
            lemma_word_field(" ty="@, Seq::empty(), "ty"@, dec(ty.0 as nat));
            lemma_more(" ty="@ + dec(ty.0 as nat), " bits="@, "bits"@, ("["@
                + bits_text(result_bits@, 0) + "]"@));
            lemma_joined(" ty="@ + dec(ty.0 as nat), field("bits"@, ("["@ + bits_text(result_bits@,
                0) + "]"@)), k);
            assert(l.rest == stmt_tail(s@, k));
        },
        Stmt::OracleCall { name, args, output_tys, result_ty } => {
            lemma_word_spaced(" "@, Seq::empty(), quoted(name@));
            lemma_more(" "@ + quoted(name@), " args="@, "args"@, vars_text(args@));
            lemma_joined(" "@ + quoted(name@), field("args"@, vars_text(args@)), (field("out_tys"@,
                types_text(output_tys@)) + (field("result_ty"@, dec(result_ty.0 as nat)) + k)));
            lemma_more(" "@ + quoted(name@) + " args="@ + vars_text(args@), " out_tys="@,
                "out_tys"@, types_text(output_tys@));
            lemma_joined(" "@ + quoted(name@) + " args="@ + vars_text(args@), field("out_tys"@,
                types_text(output_tys@)), (field("result_ty"@, dec(result_ty.0 as nat)) + k));
            lemma_more(" "@ + quoted(name@) + " args="@ + vars_text(args@) + " out_tys="@
                + types_text(output_tys@), " result_ty="@, "result_ty"@, dec(result_ty.0 as nat));
            lemma_joined(" "@ + quoted(name@) + " args="@ + vars_text(args@) + " out_tys="@
                + types_text(output_tys@), field("result_ty"@, dec(result_ty.0 as nat)), k);
            assert(l.rest == stmt_tail(s@, k));
        },
        Stmt::OracleOutput { call, idx, ty } => {
            lemma_named(call);
            lemma_word_field(" call="@, Seq::empty(), "call"@, named(call));
            lemma_more(" call="@ + named(call), " idx="@, "idx"@, dec(idx as nat));
            lemma_joined(" call="@ + named(call), field("idx"@, dec(idx as nat)), (field("ty"@,
                dec(ty.0 as nat)) + k));
            lemma_more(" call="@ + named(call) + " idx="@ + dec(idx as nat), " ty="@, "ty"@,
                dec(ty.0 as nat));
            lemma_joined(" call="@ + named(call) + " idx="@ + dec(idx as nat), field("ty"@,
                dec(ty.0 as nat)), k);
            assert(l.rest == stmt_tail(s@, k));
        },
        Stmt::ActionCall { name, guard, args, fallbacks, output_tys, result_ty } => {
            lemma_named(guard);
            lemma_word_spaced(" "@, Seq::empty(), quoted(name@));
            lemma_more(" "@ + quoted(name@), " guard="@, "guard"@, named(guard));
            lemma_joined(" "@ + quoted(name@), field("guard"@, named(guard)), (field("args"@,
                vars_text(args@)) + (field("fallbacks"@, vars_text(fallbacks@)) + (field("out_tys"@,
                types_text(output_tys@)) + (field("result_ty"@, dec(result_ty.0 as nat)) + k)))));
            lemma_more(" "@ + quoted(name@) + " guard="@ + named(guard), " args="@, "args"@,
                vars_text(args@));
            lemma_joined(" "@ + quoted(name@) + " guard="@ + named(guard), field("args"@,
                vars_text(args@)), (field("fallbacks"@, vars_text(fallbacks@)) + (field("out_tys"@,
                types_text(output_tys@)) + (field("result_ty"@, dec(result_ty.0 as nat)) + k))));
            lemma_more(" "@ + quoted(name@) + " guard="@ + named(guard) + " args="@
                + vars_text(args@), " fallbacks="@, "fallbacks"@, vars_text(fallbacks@));
            lemma_joined(" "@ + quoted(name@) + " guard="@ + named(guard) + " args="@
                + vars_text(args@), field("fallbacks"@, vars_text(fallbacks@)), (field("out_tys"@,
                types_text(output_tys@)) + (field("result_ty"@, dec(result_ty.0 as nat)) + k)));
            lemma_more(" "@ + quoted(name@) + " guard="@ + named(guard) + " args="@
                + vars_text(args@) + " fallbacks="@ + vars_text(fallbacks@), " out_tys="@,
                "out_tys"@, types_text(output_tys@));
            lemma_joined(" "@ + quoted(name@) + " guard="@ + named(guard) + " args="@
                + vars_text(args@) + " fallbacks="@ + vars_text(fallbacks@), field("out_tys"@,
                types_text(output_tys@)), (field("result_ty"@, dec(result_ty.0 as nat)) + k));
            lemma_more(" "@ + quoted(name@) + " guard="@ + named(guard) + " args="@
                + vars_text(args@) + " fallbacks="@ + vars_text(fallbacks@) + " out_tys="@
                + types_text(output_tys@), " result_ty="@, "result_ty"@, dec(result_ty.0 as nat));
            lemma_joined(" "@ + quoted(name@) + " guard="@ + named(guard) + " args="@
                + vars_text(args@) + " fallbacks="@ + vars_text(fallbacks@) + " out_tys="@
                + types_text(output_tys@), field("result_ty"@, dec(result_ty.0 as nat)), k);
            assert(l.rest == stmt_tail(s@, k));
        },
        Stmt::ActionOutput { call, idx, ty } => {
            lemma_named(call);
            lemma_word_field(" call="@, Seq::empty(), "call"@, named(call));
            lemma_more(" call="@ + named(call), " idx="@, "idx"@, dec(idx as nat));
            lemma_joined(" call="@ + named(call), field("idx"@, dec(idx as nat)), (field("ty"@,
                dec(ty.0 as nat)) + k));
            lemma_more(" call="@ + named(call) + " idx="@ + dec(idx as nat), " ty="@, "ty"@,
                dec(ty.0 as nat));
            lemma_joined(" call="@ + named(call) + " idx="@ + dec(idx as nat), field("ty"@,
                dec(ty.0 as nat)), k);
            assert(l.rest == stmt_tail(s@, k));
        },
        Stmt::Rng { name, ty } => {
            lemma_word_spaced(" "@, Seq::empty(), quoted(name@));
            lemma_more(" "@ + quoted(name@), " ty="@, "ty"@, dec(ty.0 as nat));
            lemma_joined(" "@ + quoted(name@), field("ty"@, dec(ty.0 as nat)), k);
            assert(l.rest == stmt_tail(s@, k));
        },
        Stmt::ActionStore { .. } => {},
    }
    lemma_stmt(l, s@, k, t);
}

proof fn lemma_is_const(l: LexView)
    ensures
        get_const(l) matches Ok((s, _)) ==> s is Const,
{
}

proof fn lemma_is_storage_read(l: LexView)
    ensures
        get_storage_read(l) matches Ok((s, _)) ==> s is StorageRead,
{
}

proof fn lemma_is_storage_write(l: LexView)
    ensures
        get_storage_write(l) matches Ok((s, _)) ==> s is StorageWrite,
{
}

proof fn lemma_is_transmute(l: LexView)
    ensures
        get_transmute(l) matches Ok((s, _)) ==> s is Transmute,
{
}

proof fn lemma_is_poly(l: LexView)
    ensures
        get_poly(l) matches Ok((s, _)) ==> s is Poly,
{
}

proof fn lemma_is_rol(l: LexView)
    ensures
        get_rol(l) matches Ok((s, _)) ==> s is Rol,
{
}

proof fn lemma_is_ror(l: LexView)
    ensures
        get_ror(l) matches Ok((s, _)) ==> s is Ror,
{
}

proof fn lemma_is_merge(l: LexView)
    ensures
        get_merge(l) matches Ok((s, _)) ==> s is Merge,
{
}

proof fn lemma_is_splat(l: LexView)
    ensures
        get_splat(l) matches Ok((s, _)) ==> s is Splat,
{
}

proof fn lemma_is_shuffle(l: LexView)
    ensures
        get_shuffle(l) matches Ok((s, _)) ==> s is Shuffle,
{
}

proof fn lemma_is_oracle_call(l: LexView)
    ensures
        get_oracle_call(l) matches Ok((s, _)) ==> s is OracleCall,
{
}

proof fn lemma_is_oracle_output(l: LexView)
    ensures
        get_oracle_output(l) matches Ok((s, _)) ==> s is OracleOutput,
{
}

proof fn lemma_is_action_call(l: LexView)
    ensures
        get_action_call(l) matches Ok((s, _)) ==> s is ActionCall,
{
}

proof fn lemma_is_action_output(l: LexView)
    ensures
        get_action_output(l) matches Ok((s, _)) ==> s is ActionOutput,
{
}

proof fn lemma_is_rng(l: LexView)
    ensures
        get_rng(l) matches Ok((s, _)) ==> s is Rng,
{
}

/// What is read behind a word is a statement of that word.
pub proof fn law_stmt_words(kw: Seq<char>, l: LexView)
    ensures
        match get_stmt(kw, l) {
            Ok((s, _)) => match s {
                StmtView::Const(..) => kw == "const"@,
                StmtView::StorageRead { .. } => kw == "storage_read"@,
                StmtView::StorageWrite { .. } => kw == "storage_write"@,
                StmtView::Transmute { .. } => kw == "transmute"@,
                StmtView::Poly { .. } => kw == "poly"@,
                StmtView::Rol { .. } => kw == "rol"@,
                StmtView::Ror { .. } => kw == "ror"@,
                StmtView::Merge { .. } => kw == "merge"@,
                StmtView::Splat { .. } => kw == "splat"@,
                StmtView::Shuffle { .. } => kw == "shuffle"@,
                StmtView::OracleCall { .. } => kw == "oracle_call"@,
                StmtView::OracleOutput { .. } => kw == "oracle_output"@,
                StmtView::ActionCall { .. } => kw == "action_call"@,
                StmtView::ActionOutput { .. } => kw == "action_output"@,
                StmtView::Rng { .. } => kw == "rng"@,
                StmtView::ActionStore { .. } => false,
            },
            Err(_) => true,
        },
{
    reveal(get_stmt);
    lemma_is_const(l);
    lemma_is_storage_read(l);
    lemma_is_storage_write(l);
    lemma_is_transmute(l);
    lemma_is_poly(l);
    lemma_is_rol(l);
    lemma_is_ror(l);
    lemma_is_merge(l);
    lemma_is_splat(l);
    lemma_is_shuffle(l);
    lemma_is_oracle_call(l);
    lemma_is_oracle_output(l);
    lemma_is_action_call(l);
    lemma_is_action_output(l);
    lemma_is_rng(l);
}

/// The end of a boolean block is written as its word, its condition and its
/// destinations, the one taken on 1 first.
pub proof fn law_bir_term_written(t: BIrTerminator)
    ensures
        match t {
            BIrTerminator::Jmp(to) => bir_term_text(t@) == "jmp "@ + target_text(to.block)
                + " args="@
                + vars_text(to.args@),
            BIrTerminator::CondJmp { val, then_target, else_target } => bir_term_text(t@)
                == "cond_jmp val="@ + named(val) + " then="@ + target_text(then_target.block)
                + " then_args="@ + vars_text(then_target.args@) + " else="@ + target_text(
                else_target.block,
            ) + " else_args="@ + vars_text(else_target.args@),
        },
{
    reveal(bir_term_text);
    lemma_literals();
    match t {
        BIrTerminator::Jmp(to) => {
            lemma_word_spaced("jmp "@, "jmp"@, target_text(to.block));
            lemma_more("jmp "@ + target_text(to.block), " args="@, "args"@, vars_text(to.args@));
        },
        BIrTerminator::CondJmp { val, then_target, else_target } => {
            lemma_named(val);
            lemma_word_field("cond_jmp val="@, "cond_jmp"@, "val"@, named(val));
            lemma_more("cond_jmp val="@ + named(val), " then="@, "then"@,
                target_text(then_target.block));
            lemma_more("cond_jmp val="@ + named(val) + " then="@ + target_text(then_target.block),
                " then_args="@, "then_args"@, vars_text(then_target.args@));
            lemma_more("cond_jmp val="@ + named(val) + " then="@ + target_text(then_target.block)
                + " then_args="@ + vars_text(then_target.args@), " else="@, "else"@,
                target_text(else_target.block));
            lemma_more("cond_jmp val="@ + named(val) + " then="@ + target_text(then_target.block)
                + " then_args="@ + vars_text(then_target.args@) + " else="@
                + target_text(else_target.block), " else_args="@, "else_args"@,
                vars_text(else_target.args@));
        },
    }
}

/// And it is read as it is written.
pub proof fn law_bir_term_read(l: LexView, t: BIrTerminator, k: Seq<char>)
    requires
        at_blank(k),
        match t {
            BIrTerminator::Jmp(to) => l.rest == " "@ + target_text(to.block) + " args="@
                + vars_text(
                to.args@,
            ) + k,
            BIrTerminator::CondJmp { val, then_target, else_target } => l.rest == " val="@ + named(
                val,
            ) + " then="@ + target_text(then_target.block) + " then_args="@ + vars_text(
                then_target.args@,
            ) + " else="@ + target_text(else_target.block) + " else_args="@ + vars_text(
                else_target.args@,
            ) + k,
        },
    ensures
        match t {
            BIrTerminator::Jmp(_) => reads(get_bir_term("jmp"@, l), t@, k),
            BIrTerminator::CondJmp { .. } => reads(get_bir_term("cond_jmp"@, l), t@, k),
        },
{
    reveal(bir_term_tail);
    reveal(bir_term_word);
    lemma_literals();
    match t {
        BIrTerminator::Jmp(to) => {
            lemma_word_spaced(" "@, Seq::empty(), target_text(to.block));
            lemma_more(" "@ + target_text(to.block), " args="@, "args"@, vars_text(to.args@));
            lemma_joined(" "@ + target_text(to.block), field("args"@, vars_text(to.args@)), k);
            assert(l.rest == bir_term_tail(t@, k));
        },
        BIrTerminator::CondJmp { val, then_target, else_target } => {
            lemma_named(val);
            lemma_word_field(" val="@, Seq::empty(), "val"@, named(val));
            lemma_more(" val="@ + named(val), " then="@, "then"@, target_text(then_target.block));
            lemma_joined(" val="@ + named(val), field("then"@, target_text(then_target.block)),
                (field("then_args"@, vars_text(then_target.args@)) + (field("else"@,
                target_text(else_target.block)) + (field("else_args"@, vars_text(else_target.args@))
                + k))));
            lemma_more(" val="@ + named(val) + " then="@ + target_text(then_target.block),
                " then_args="@, "then_args"@, vars_text(then_target.args@));
            lemma_joined(" val="@ + named(val) + " then="@ + target_text(then_target.block),
                field("then_args"@, vars_text(then_target.args@)), (field("else"@,
                target_text(else_target.block)) + (field("else_args"@, vars_text(else_target.args@))
                + k)));
            lemma_more(" val="@ + named(val) + " then="@ + target_text(then_target.block)
                + " then_args="@ + vars_text(then_target.args@), " else="@, "else"@,
                target_text(else_target.block));
            lemma_joined(" val="@ + named(val) + " then="@ + target_text(then_target.block)
                + " then_args="@ + vars_text(then_target.args@), field("else"@,
                target_text(else_target.block)), (field("else_args"@, vars_text(else_target.args@))
                + k));
            lemma_more(" val="@ + named(val) + " then="@ + target_text(then_target.block)
                + " then_args="@ + vars_text(then_target.args@) + " else="@
                + target_text(else_target.block), " else_args="@, "else_args"@,
                vars_text(else_target.args@));
            lemma_joined(" val="@ + named(val) + " then="@ + target_text(then_target.block)
                + " then_args="@ + vars_text(then_target.args@) + " else="@
                + target_text(else_target.block), field("else_args"@, vars_text(else_target.args@)),
                k);
            assert(l.rest == bir_term_tail(t@, k));
        },
    }
    lemma_bir_term(l, t@, k);
}

/// What is read behind a word is an end of that word.
pub proof fn law_bir_term_words(kw: Seq<char>, l: LexView)
    ensures
        match get_bir_term(kw, l) {
            Ok((t, _)) => match t {
                BIrTermView::Jmp(_) => kw == "jmp"@,
                BIrTermView::CondJmp { .. } => kw == "cond_jmp"@,
            },
            Err(_) => true,
        },
{
    reveal(get_bir_term);
}

/// The end of a typed block is written as its word, its condition or index and
/// its destinations, the one taken on 1 first.
pub proof fn law_term_written(t: IRTerminator)
    ensures
        match t {
            IRTerminator::Jmp { target } => term_text(t@) == "jmp "@ + target_text(target.dest)
                + " args="@ + vars_text(target.args@),
            IRTerminator::JumpCond { condition, then_target, else_target } => term_text(t@)
                == "jmp_cond cond="@ + named(condition) + " then="@ + target_text(then_target.dest)
                + " then_args="@ + vars_text(then_target.args@) + " else="@ + target_text(
                else_target.dest,
            ) + " else_args="@ + vars_text(else_target.args@),
            IRTerminator::JumpTable { index, cases } => term_text(t@) == "jmp_table index="@
                + named(
                index,
            ) + cases_text(case_views(cases@), 0),
        },
{
    reveal(term_text);
    lemma_literals();
    match t {
        IRTerminator::Jmp { target } => {
            lemma_word_spaced("jmp "@, "jmp"@, target_text(target.dest));
            lemma_more("jmp "@ + target_text(target.dest), " args="@, "args"@,
                vars_text(target.args@));
        },
        IRTerminator::JumpCond { condition, then_target, else_target } => {
            lemma_named(condition);
            lemma_word_field("jmp_cond cond="@, "jmp_cond"@, "cond"@, named(condition));
            lemma_more("jmp_cond cond="@ + named(condition), " then="@, "then"@,
                target_text(then_target.dest));
            lemma_more("jmp_cond cond="@ + named(condition) + " then="@
                + target_text(then_target.dest), " then_args="@, "then_args"@,
                vars_text(then_target.args@));
            lemma_more("jmp_cond cond="@ + named(condition) + " then="@
                + target_text(then_target.dest) + " then_args="@ + vars_text(then_target.args@),
                " else="@, "else"@, target_text(else_target.dest));
            lemma_more("jmp_cond cond="@ + named(condition) + " then="@
                + target_text(then_target.dest) + " then_args="@ + vars_text(then_target.args@)
                + " else="@ + target_text(else_target.dest), " else_args="@, "else_args"@,
                vars_text(else_target.args@));
        },
        IRTerminator::JumpTable { index, cases } => {
            lemma_named(index);
            lemma_word_field("jmp_table index="@, "jmp_table"@, "index"@, named(index));
        },
    }
}

/// And it is read as it is written.
pub proof fn law_term_read(l: LexView, v: IRTerminator, k: Seq<char>, t: Seq<char>)
    requires
        at_line_end(k, t),
        term_writable(v@),
        match v {
            IRTerminator::Jmp { target } => l.rest == " "@ + target_text(target.dest) + " args="@
                + vars_text(target.args@) + k,
            IRTerminator::JumpCond { condition, then_target, else_target } => l.rest == " cond="@
                + named(condition) + " then="@ + target_text(then_target.dest) + " then_args="@
                + vars_text(then_target.args@) + " else="@ + target_text(else_target.dest)
                + " else_args="@ + vars_text(else_target.args@) + k,
            IRTerminator::JumpTable { index, cases } => l.rest == " index="@ + named(index)
                + cases_text(case_views(cases@), 0) + k,
        },
    ensures
        match v {
            IRTerminator::Jmp { .. } => reads_line(get_term("jmp"@, l), v@, t),
            IRTerminator::JumpCond { .. } => reads_line(get_term("jmp_cond"@, l), v@, t),
            IRTerminator::JumpTable { .. } => reads_line(get_term("jmp_table"@, l), v@, t),
        },
{
    reveal(term_tail);
    reveal(term_word);
    lemma_literals();
    match v {
        IRTerminator::Jmp { target } => {
            lemma_word_spaced(" "@, Seq::empty(), target_text(target.dest));
            lemma_more(" "@ + target_text(target.dest), " args="@, "args"@,
                vars_text(target.args@));
            lemma_joined(" "@ + target_text(target.dest), field("args"@, vars_text(target.args@)),
                k);
            assert(l.rest == term_tail(v@, k));
        },
        IRTerminator::JumpCond { condition, then_target, else_target } => {
            lemma_named(condition);
            lemma_word_field(" cond="@, Seq::empty(), "cond"@, named(condition));
            lemma_more(" cond="@ + named(condition), " then="@, "then"@,
                target_text(then_target.dest));
            lemma_joined(" cond="@ + named(condition), field("then"@,
                target_text(then_target.dest)), (field("then_args"@, vars_text(then_target.args@))
                + (field("else"@, target_text(else_target.dest)) + (field("else_args"@,
                vars_text(else_target.args@)) + k))));
            lemma_more(" cond="@ + named(condition) + " then="@ + target_text(then_target.dest),
                " then_args="@, "then_args"@, vars_text(then_target.args@));
            lemma_joined(" cond="@ + named(condition) + " then="@ + target_text(then_target.dest),
                field("then_args"@, vars_text(then_target.args@)), (field("else"@,
                target_text(else_target.dest)) + (field("else_args"@, vars_text(else_target.args@))
                + k)));
            lemma_more(" cond="@ + named(condition) + " then="@ + target_text(then_target.dest)
                + " then_args="@ + vars_text(then_target.args@), " else="@, "else"@,
                target_text(else_target.dest));
            lemma_joined(" cond="@ + named(condition) + " then="@ + target_text(then_target.dest)
                + " then_args="@ + vars_text(then_target.args@), field("else"@,
                target_text(else_target.dest)), (field("else_args"@, vars_text(else_target.args@))
                + k));
            lemma_more(" cond="@ + named(condition) + " then="@ + target_text(then_target.dest)
                + " then_args="@ + vars_text(then_target.args@) + " else="@
                + target_text(else_target.dest), " else_args="@, "else_args"@,
                vars_text(else_target.args@));
            lemma_joined(" cond="@ + named(condition) + " then="@ + target_text(then_target.dest)
                + " then_args="@ + vars_text(then_target.args@) + " else="@
                + target_text(else_target.dest), field("else_args"@, vars_text(else_target.args@)),
                k);
            assert(l.rest == term_tail(v@, k));
        },
        IRTerminator::JumpTable { index, cases } => {
            lemma_named(index);
            lemma_word_field(" index="@, Seq::empty(), "index"@, named(index));
            lemma_joined(" index="@ + named(index), cases_text(case_views(cases@), 0), k);
            assert(l.rest == term_tail(v@, k));
        },
    }
    lemma_term(l, v@, k, t);
}

/// What is read behind a word is an end of that word.
pub proof fn law_term_words(kw: Seq<char>, l: LexView)
    ensures
        match get_term(kw, l) {
            Ok((t, _)) => match t {
                TermView::Jmp { .. } => kw == "jmp"@,
                TermView::JumpCond { .. } => kw == "jmp_cond"@,
                TermView::JumpTable { .. } => kw == "jmp_table"@,
            },
            Err(_) => true,
        },
{
    reveal(get_term);
}

} // verus!
