//! Typed programs as text: types, declarations, blocks.

use vstd::prelude::*;

use crate::common::{
    action_views, oracle_views, rng_views, type_views, ActionDecl, CallDeclView, IrType,
    IrTypeView, Node, OracleDecl, RngDecl, RngDeclView, TypeTable,
};
use crate::fmt::dec;
use crate::ir::{
    block_views, node_kinds, IRBlock, IRBlockView, IRStmt, IRTerminator, IRTypeId, IRVarId,
    PrimType, StmtView, TermView,
};
use crate::text::error::{ErrorView, ParseError};
use crate::text::fields::{
    field, get_name, get_type_field, get_types, get_types_field, lemma_blank_ends,
    lemma_field_blank, lemma_fields_shrink, lemma_spaced, lemma_spaced_name, lemma_spaced_number,
    lemma_spaced_types, lemma_type_field, lemma_types, lemma_types_field, lemma_values_shrink,
    name_text, put_spaced_name, put_spaced_number, put_spaced_types, put_type_field, put_types,
    put_types_field, put_var, read_name, read_type_field, read_types, read_types_field, spaced,
    type_text, types_text, var_text,
};
use crate::text::ir_stmt::{
    at_line_end, get_stmt, lemma_stmt, lemma_stmt_shrinks, lemma_stmt_split, parse_ir_stmt,
    stmt_tail, stmt_text, stmt_word, stmt_writable, write_ir_stmt,
};
use crate::text::ir_term::{
    get_term, lemma_arrow, lemma_term, lemma_term_shrinks, lemma_term_split, parse_ir_terminator,
    term_tail, term_text, term_word, term_writable, write_ir_terminator,
};
use crate::text::lexer::{
    get_char, get_ident, get_item, get_str, get_u32, get_usize, get_var, gives_view, group_shrinks,
    is_word, lemma_list_shrinks, LexView, Lexer, Parsed,
};
use crate::text::pieces::{
    at_blank, at_token, is_name, lemma_at_token, lemma_char, lemma_item, lemma_joined,
    lemma_past_blank, lemma_word, reads,
};
use crate::text::traits::{ParseText, WriteText};

verus! {

// ---------------------------------------------------------------------------
// Types
// ---------------------------------------------------------------------------

/// The word of a primitive type.
pub open spec fn prim_word(p: PrimType) -> Seq<char> {
    match p {
        PrimType::Bit => "bit"@,
        PrimType::_8 => "u8"@,
        PrimType::_16 => "u16"@,
        PrimType::_32 => "u32"@,
        PrimType::_64 => "u64"@,
        PrimType::_128 => "u128"@,
        PrimType::_256 => "u256"@,
        PrimType::AES8 => "aes8"@,
        PrimType::Galois64 => "galois64"@,
        PrimType::Z3 => "unknown"@,
    }
}

/// The primitive type of a word.
pub open spec fn prim_of(word: Seq<char>) -> Option<PrimType> {
    if word == "bit"@ {
        Some(PrimType::Bit)
    } else if word == "u8"@ {
        Some(PrimType::_8)
    } else if word == "u16"@ {
        Some(PrimType::_16)
    } else if word == "u32"@ {
        Some(PrimType::_32)
    } else if word == "u64"@ {
        Some(PrimType::_64)
    } else if word == "u128"@ {
        Some(PrimType::_128)
    } else if word == "u256"@ {
        Some(PrimType::_256)
    } else if word == "aes8"@ {
        Some(PrimType::AES8)
    } else if word == "galois64"@ {
        Some(PrimType::Galois64)
    } else {
        None
    }
}

/// A type.
pub open spec fn ir_type_text(t: IrTypeView) -> Seq<char> {
    match t {
        IrTypeView::Primitive(p) => "prim"@ + spaced(prim_word(p)),
        IrTypeView::Vec(n, elem) => "vec"@ + (spaced(dec(n as nat)) + spaced(type_text(elem))),
        IrTypeView::Tuple(ids) => "tuple"@ + spaced(types_text(ids)),
        IrTypeView::Block { params } => "block"@ + spaced(types_text(params)),
        IrTypeView::Func { params, results } => "func"@ + (spaced(types_text(params)) + ("->"@
            + types_text(results))),
    }
}

/// Whether a type can be read back.
pub open spec fn ir_type_writable(t: IrTypeView) -> bool {
    match t {
        IrTypeView::Primitive(p) => p != PrimType::Z3,
        IrTypeView::Vec(n, _) => n <= u32::MAX,
        _ => true,
    }
}

/// The types of a table from type `i` on, a line for each.
pub open spec fn type_lines(ts: Seq<IrTypeView>, i: int) -> Seq<char>
    decreases ts.len() - i,
{
    if i >= ts.len() {
        Seq::empty()
    } else {
        "type"@ + (spaced(dec(i as nat)) + (spaced(ir_type_text(ts[i])) + (seq!['\n'] + type_lines(
            ts,
            i + 1,
        ))))
    }
}

fn put_prim(w: &mut String, p: PrimType)
    ensures
        final(w)@ == old(w)@ + prim_word(p),
{
    w.push_str(
        match p {
            PrimType::Bit => "bit",
            PrimType::_8 => "u8",
            PrimType::_16 => "u16",
            PrimType::_32 => "u32",
            PrimType::_64 => "u64",
            PrimType::_128 => "u128",
            PrimType::_256 => "u256",
            PrimType::AES8 => "aes8",
            PrimType::Galois64 => "galois64",
            PrimType::Z3 => "unknown",
        },
    );
}

fn put_ir_type(w: &mut String, t: &IrType)
    ensures
        final(w)@ == old(w)@ + ir_type_text(t@),
{
    match t {
        IrType::Primitive(p) => {
            w.push_str("prim");
            w.push(' ');
            put_prim(w, *p);
        },
        IrType::Vec(n, elem) => {
            w.push_str("vec");
            put_spaced_number(w, *n as u128);
            put_spaced_number(w, elem.0 as u128);
        },
        IrType::Tuple(ids) => {
            w.push_str("tuple");
            put_spaced_types(w, ids);
        },
        IrType::Block { params } => {
            w.push_str("block");
            put_spaced_types(w, params);
        },
        IrType::Func { params, results } => {
            w.push_str("func");
            put_spaced_types(w, params);
            w.push_str("->");
            put_types(w, results);
        },
    }
    assert(w@ =~= old(w)@ + ir_type_text(t@));
}

impl WriteText for TypeTable {
    open spec fn can_write(&self) -> bool {
        true
    }

    open spec fn text(&self) -> Seq<char> {
        type_lines(self@, 0)
    }

    fn write_text(&self, w: &mut String) {
        let ghost ts = self@;
        let ghost before = w@;
        let mut i: usize = 0;
        while i < self.0.len()
            invariant
                i <= self.0@.len(),
                ts == type_views(self.0@),
                w@ + type_lines(ts, i as int) == before + type_lines(ts, 0),
            decreases self.0@.len() - i,
        {
            assert(ts[i as int] == self.0@[i as int]@);
            let ghost sofar = w@;
            w.push_str("type");
            put_spaced_number(w, i as u128);
            w.push(' ');
            put_ir_type(w, &self.0[i]);
            w.push('\n');
            proof {
                let b = spaced(dec(i as nat));
                let c = spaced(ir_type_text(ts[i as int]));
                let more = type_lines(ts, i + 1);
                assert(w@ =~= sofar + "type"@ + b + c + seq!['\n']);
                lemma_joined(sofar + "type"@ + b + c, seq!['\n'], more);
                lemma_joined(sofar + "type"@ + b, c, seq!['\n'] + more);
                lemma_joined(sofar + "type"@, b, c + (seq!['\n'] + more));
                lemma_joined(sofar, "type"@, b + (c + (seq!['\n'] + more)));
            }
            i += 1;
        }
        assert(w@ + type_lines(ts, i as int) =~= w@);
    }
}

/// A type behind its word.
pub open spec fn get_ir_type(kw: Seq<char>, l: LexView) -> Parsed<IrTypeView> {
    if kw == "prim"@ {
        match get_ident(l) {
            Err(e) => Err(e),
            Ok((word, l)) => match prim_of(word) {
                Some(p) => Ok((IrTypeView::Primitive(p), l)),
                None => Err(ErrorView::UnknownPrimType(word)),
            },
        }
    } else if kw == "vec"@ {
        match get_usize(l) {
            Err(e) => Err(e),
            Ok((n, l)) => match get_u32(l) {
                Err(e) => Err(e),
                Ok((elem, l)) => Ok((IrTypeView::Vec(n, IRTypeId(elem)), l)),
            },
        }
    } else if kw == "tuple"@ {
        match get_types(l) {
            Err(e) => Err(e),
            Ok((ids, l)) => Ok((IrTypeView::Tuple(ids), l)),
        }
    } else if kw == "block"@ {
        match get_types(l) {
            Err(e) => Err(e),
            Ok((params, l)) => Ok((IrTypeView::Block { params }, l)),
        }
    } else if kw == "func"@ {
        match get_types(l) {
            Err(e) => Err(e),
            Ok((params, l)) => match get_str(l, "->"@) {
                Err(e) => Err(e),
                Ok((_, l)) => match get_types(l) {
                    Err(e) => Err(e),
                    Ok((results, l)) => Ok((IrTypeView::Func { params, results }, l)),
                },
            },
        }
    } else {
        Err(ErrorView::UnknownDirective(kw))
    }
}

pub proof fn lemma_ir_type_shrinks(kw: Seq<char>, l: LexView)
    ensures
        get_ir_type(kw, l) matches Ok((_, m)) ==> m.rest.len() < l.rest.len(),
{
    broadcast use {group_shrinks, lemma_values_shrink};

}

fn read_prim(word: &String) -> (r: Option<PrimType>)
    ensures
        r == prim_of(word@),
{
    if is_word(word, "bit") {
        Some(PrimType::Bit)
    } else if is_word(word, "u8") {
        Some(PrimType::_8)
    } else if is_word(word, "u16") {
        Some(PrimType::_16)
    } else if is_word(word, "u32") {
        Some(PrimType::_32)
    } else if is_word(word, "u64") {
        Some(PrimType::_64)
    } else if is_word(word, "u128") {
        Some(PrimType::_128)
    } else if is_word(word, "u256") {
        Some(PrimType::_256)
    } else if is_word(word, "aes8") {
        Some(PrimType::AES8)
    } else if is_word(word, "galois64") {
        Some(PrimType::Galois64)
    } else {
        None
    }
}

fn read_func_type(lex: &mut Lexer) -> (r: Result<IrType, ParseError>)
    ensures
        gives_view(r, final(lex)@, get_ir_type("func"@, old(lex)@)),
{
    proof {
        lemma_type_words();
    }
    let params: Vec<IRTypeId> = match read_types(lex) {
        Ok(x) => x,
        Err(e) => {
            return Err(e);
        },
    };
    proof {
        lemma_list_shrinks(old(lex)@, false, '[', ']');
    }
    match lex.expect_str("->") {
        Ok(_) => {},
        Err(e) => {
            return Err(e);
        },
    }
    match read_types(lex) {
        Ok(results) => Ok(IrType::Func { params, results }),
        Err(e) => Err(e),
    }
}

/// Read a type behind its word.
pub fn parse_ir_type(kw: &String, lex: &mut Lexer) -> (r: Result<IrType, ParseError>)
    ensures
        gives_view(r, final(lex)@, get_ir_type(kw@, old(lex)@)),
{
    if is_word(kw, "prim") {
        match lex.read_ident() {
            Ok(word) => match read_prim(&word) {
                Some(p) => Ok(IrType::Primitive(p)),
                None => Err(ParseError::UnknownPrimType(word)),
            },
            Err(e) => Err(e),
        }
    } else if is_word(kw, "vec") {
        let n: usize = match lex.read_usize() {
            Ok(n) => n,
            Err(e) => {
                return Err(e);
            },
        };
        match lex.read_u32() {
            Ok(elem) => Ok(IrType::Vec(n, IRTypeId(elem))),
            Err(e) => Err(e),
        }
    } else if is_word(kw, "tuple") {
        match read_types(lex) {
            Ok(ids) => Ok(IrType::Tuple(ids)),
            Err(e) => Err(e),
        }
    } else if is_word(kw, "block") {
        match read_types(lex) {
            Ok(params) => Ok(IrType::Block { params }),
            Err(e) => Err(e),
        }
    } else if is_word(kw, "func") {
        read_func_type(lex)
    } else {
        Err(ParseError::UnknownDirective(kw.clone()))
    }
}

/// The words of types are words, and no two are the same.
pub proof fn lemma_type_words()
    ensures
        is_name("prim"@),
        is_name("vec"@),
        is_name("tuple"@),
        is_name("block"@),
        is_name("func"@),
        "vec"@ != "prim"@,
        "tuple"@ != "prim"@,
        "tuple"@ != "vec"@,
        "block"@ != "prim"@,
        "block"@ != "vec"@,
        "block"@ != "tuple"@,
        "func"@ != "prim"@,
        "func"@ != "vec"@,
        "func"@ != "tuple"@,
        "func"@ != "block"@,
{
    reveal_strlit("prim");
    reveal_strlit("vec");
    reveal_strlit("tuple");
    reveal_strlit("block");
    reveal_strlit("func");
    assert("prim"@.len() == 4 && "prim"@[0] == 'p');
    assert("vec"@.len() == 3);
    assert("tuple"@.len() == 5 && "tuple"@[0] == 't');
    assert("block"@.len() == 5 && "block"@[0] == 'b');
    assert("func"@.len() == 4 && "func"@[0] == 'f');
}

proof fn lemma_prim(p: PrimType)
    requires
        p != PrimType::Z3,
    ensures
        is_name(prim_word(p)),
        prim_of(prim_word(p)) == Some(p),
{
    reveal_strlit("bit");
    reveal_strlit("u8");
    reveal_strlit("u16");
    reveal_strlit("u32");
    reveal_strlit("u64");
    reveal_strlit("u128");
    reveal_strlit("u256");
    reveal_strlit("aes8");
    reveal_strlit("galois64");
    assert("bit"@.len() == 3);
    assert("u8"@.len() == 2);
    assert("u16"@.len() == 3);
    assert("u32"@.len() == 3);
    assert("u64"@.len() == 3);
    assert("u128"@.len() == 4);
    assert("u256"@.len() == 4);
    assert("aes8"@.len() == 4);
    assert("galois64"@.len() == 8);
    assert("bit"@[0] == 'b' && "u16"@[1] == '1' && "u32"@[1] == '3' && "u64"@[1] == '6');
    assert("u128"@[1] == '1' && "u256"@[1] == '2' && "aes8"@[0] == 'a');
}

/// A type is read back.
pub proof fn lemma_ir_type(l: LexView, v: IrTypeView, k: Seq<char>, t: Seq<char>)
    requires
        ir_type_writable(v),
        k == seq!['\n'] + t,
        l.skipped().rest == ir_type_text(v) + k,
    ensures
        get_ident(l) is Ok,
        reads(get_ir_type(get_ident(l)->Ok_0.0, get_ident(l)->Ok_0.1), v, k),
{
    lemma_type_words();
    assert(at_blank(k)) by {
        assert(k[0] == '\n');
    }
    lemma_blank_ends(k);
    match v {
        IrTypeView::Primitive(p) => {
            lemma_prim(p);
            let k1 = spaced(prim_word(p)) + k;
            lemma_joined("prim"@, spaced(prim_word(p)), k);
            lemma_field_blank(Seq::empty(), prim_word(p), k);
            lemma_blank_ends(k1);
            lemma_word(l, "prim"@, k1);
            let l1 = get_ident(l)->Ok_0.1;
            assert((prim_word(p) + k)[0] == prim_word(p)[0]);
            lemma_spaced(l1, prim_word(p), k);
            lemma_word(l1, prim_word(p), k);
        },
        IrTypeView::Vec(n, elem) => {
            let a = spaced(dec(n as nat));
            let b = spaced(type_text(elem));
            let k2 = b + k;
            let k1 = a + k2;
            lemma_joined("vec"@, a + b, k);
            lemma_joined(a, b, k);
            lemma_field_blank(Seq::empty(), dec(n as nat), k2);
            lemma_field_blank(Seq::empty(), type_text(elem), k);
            lemma_blank_ends(k1);
            lemma_blank_ends(k2);
            lemma_word(l, "vec"@, k1);
            let l1 = get_ident(l)->Ok_0.1;
            lemma_spaced_number(l1, n as nat, u32::MAX as nat, k2);
            let l2 = get_usize(l1)->Ok_0.1;
            lemma_spaced_number(l2, elem.0 as nat, u32::MAX as nat, k);
        },
        IrTypeView::Tuple(ids) => {
            let k1 = spaced(types_text(ids)) + k;
            lemma_joined("tuple"@, spaced(types_text(ids)), k);
            lemma_field_blank(Seq::empty(), types_text(ids), k);
            lemma_blank_ends(k1);
            lemma_word(l, "tuple"@, k1);
            let l1 = get_ident(l)->Ok_0.1;
            lemma_spaced_types(l1, ids, k);
        },
        IrTypeView::Block { params } => {
            let k1 = spaced(types_text(params)) + k;
            lemma_joined("block"@, spaced(types_text(params)), k);
            lemma_field_blank(Seq::empty(), types_text(params), k);
            lemma_blank_ends(k1);
            lemma_word(l, "block"@, k1);
            let l1 = get_ident(l)->Ok_0.1;
            lemma_spaced_types(l1, params, k);
        },
        IrTypeView::Func { params, results } => {
            let a = spaced(types_text(params));
            let b = types_text(results);
            let k3 = b + k;
            let k2 = "->"@ + k3;
            let k1 = a + k2;
            lemma_joined("func"@, a + ("->"@ + b), k);
            lemma_joined(a, "->"@ + b, k);
            lemma_joined("->"@, b, k);
            lemma_field_blank(Seq::empty(), types_text(params), k2);
            lemma_blank_ends(k1);
            lemma_word(l, "func"@, k1);
            let l1 = get_ident(l)->Ok_0.1;
            lemma_spaced_types(l1, params, k2);
            let l2 = get_types(l1)->Ok_0.1;
            assert(k2[0] == '-') by {
                reveal_strlit("->");
            }
            lemma_at_token(l2);
            lemma_arrow(l2, k3);
            let l3 = get_str(l2, "->"@)->Ok_0.1;
            assert(k3[0] == '[');
            lemma_at_token(l3);
            lemma_types(l3, results, k);
        },
    }
}

// ---------------------------------------------------------------------------
// Declarations
// ---------------------------------------------------------------------------

/// A declared function behind its word.
pub open spec fn call_decl_text(d: CallDeclView) -> Seq<char> {
    spaced(name_text(d.name)) + (field("params"@, types_text(d.params)) + field(
        "results"@,
        types_text(d.results),
    ))
}

/// Declared functions from function `i` on, a line for each.
pub open spec fn call_lines(word: Seq<char>, ds: Seq<CallDeclView>, i: int) -> Seq<char>
    decreases ds.len() - i,
{
    if i >= ds.len() {
        Seq::empty()
    } else {
        word + (call_decl_text(ds[i]) + (seq!['\n'] + call_lines(word, ds, i + 1)))
    }
}

/// A random source behind its word.
pub open spec fn rng_decl_text(d: RngDeclView) -> Seq<char> {
    spaced(name_text(d.name)) + field("ty"@, type_text(d.ty))
}

/// Random sources from source `i` on, a line for each.
pub open spec fn rng_lines(ds: Seq<RngDeclView>, i: int) -> Seq<char>
    decreases ds.len() - i,
{
    if i >= ds.len() {
        Seq::empty()
    } else {
        "rng"@ + (rng_decl_text(ds[i]) + (seq!['\n'] + rng_lines(ds, i + 1)))
    }
}

fn put_call_decl(w: &mut String, name: &String, params: &Vec<IRTypeId>, results: &Vec<IRTypeId>)
    ensures
        final(w)@ == old(w)@ + call_decl_text(
            CallDeclView { name: name@, params: params@, results: results@ },
        ),
{
    let ghost b = w@;
    put_spaced_name(w, name);
    put_types_field(w, "params", params);
    put_types_field(w, "results", results);
    proof {
        let f1 = spaced(name_text(name@));
        let f2 = field("params"@, types_text(params@));
        let f3 = field("results"@, types_text(results@));
        lemma_joined(b + f1, f2, f3);
        lemma_joined(b, f1, f2 + f3);
    }
}

pub(crate) fn put_oracles(w: &mut String, ds: &Vec<OracleDecl>)
    ensures
        final(w)@ == old(w)@ + call_lines("oracle"@, oracle_views(ds@), 0),
{
    let ghost vs = oracle_views(ds@);
    let ghost before = w@;
    let mut i: usize = 0;
    while i < ds.len()
        invariant
            i <= ds@.len(),
            vs == oracle_views(ds@),
            w@ + call_lines("oracle"@, vs, i as int) == before + call_lines("oracle"@, vs, 0),
        decreases ds@.len() - i,
    {
        assert(vs[i as int] == ds@[i as int]@);
        let ghost sofar = w@;
        w.push_str("oracle");
        put_call_decl(w, &ds[i].name, &ds[i].params, &ds[i].results);
        w.push('\n');
        proof {
            let a = call_decl_text(vs[i as int]);
            let more = call_lines("oracle"@, vs, i + 1);
            assert(w@ =~= sofar + "oracle"@ + a + seq!['\n']);
            lemma_joined(sofar + "oracle"@ + a, seq!['\n'], more);
            lemma_joined(sofar + "oracle"@, a, seq!['\n'] + more);
            lemma_joined(sofar, "oracle"@, a + (seq!['\n'] + more));
        }
        i += 1;
    }
    assert(w@ + call_lines("oracle"@, vs, i as int) =~= w@);
}

pub(crate) fn put_actions(w: &mut String, ds: &Vec<ActionDecl>)
    ensures
        final(w)@ == old(w)@ + call_lines("action"@, action_views(ds@), 0),
{
    let ghost vs = action_views(ds@);
    let ghost before = w@;
    let mut i: usize = 0;
    while i < ds.len()
        invariant
            i <= ds@.len(),
            vs == action_views(ds@),
            w@ + call_lines("action"@, vs, i as int) == before + call_lines("action"@, vs, 0),
        decreases ds@.len() - i,
    {
        assert(vs[i as int] == ds@[i as int]@);
        let ghost sofar = w@;
        w.push_str("action");
        put_call_decl(w, &ds[i].name, &ds[i].params, &ds[i].results);
        w.push('\n');
        proof {
            let a = call_decl_text(vs[i as int]);
            let more = call_lines("action"@, vs, i + 1);
            assert(w@ =~= sofar + "action"@ + a + seq!['\n']);
            lemma_joined(sofar + "action"@ + a, seq!['\n'], more);
            lemma_joined(sofar + "action"@, a, seq!['\n'] + more);
            lemma_joined(sofar, "action"@, a + (seq!['\n'] + more));
        }
        i += 1;
    }
    assert(w@ + call_lines("action"@, vs, i as int) =~= w@);
}

pub(crate) fn put_rngs(w: &mut String, ds: &Vec<RngDecl>)
    ensures
        final(w)@ == old(w)@ + rng_lines(rng_views(ds@), 0),
{
    let ghost vs = rng_views(ds@);
    let ghost before = w@;
    let mut i: usize = 0;
    while i < ds.len()
        invariant
            i <= ds@.len(),
            vs == rng_views(ds@),
            w@ + rng_lines(vs, i as int) == before + rng_lines(vs, 0),
        decreases ds@.len() - i,
    {
        assert(vs[i as int] == ds@[i as int]@);
        let ghost sofar = w@;
        w.push_str("rng");
        put_spaced_name(w, &ds[i].name);
        put_type_field(w, "ty", ds[i].ty);
        w.push('\n');
        proof {
            let f1 = spaced(name_text(vs[i as int].name));
            let f2 = field("ty"@, type_text(vs[i as int].ty));
            let a = rng_decl_text(vs[i as int]);
            let more = rng_lines(vs, i + 1);
            lemma_joined(sofar + "rng"@, f1, f2);
            assert(w@ =~= sofar + "rng"@ + a + seq!['\n']);
            lemma_joined(sofar + "rng"@ + a, seq!['\n'], more);
            lemma_joined(sofar + "rng"@, a, seq!['\n'] + more);
            lemma_joined(sofar, "rng"@, a + (seq!['\n'] + more));
        }
        i += 1;
    }
    assert(w@ + rng_lines(vs, i as int) =~= w@);
}

/// A declared function behind its word.
pub open spec fn get_call_decl(l: LexView) -> Parsed<CallDeclView> {
    match get_name(l) {
        Err(e) => Err(e),
        Ok((name, l)) => match get_types_field(l, "params"@) {
            Err(e) => Err(e),
            Ok((params, l)) => match get_types_field(l, "results"@) {
                Err(e) => Err(e),
                Ok((results, l)) => Ok((CallDeclView { name, params, results }, l)),
            },
        },
    }
}

/// A random source behind its word.
pub open spec fn get_rng_decl(l: LexView) -> Parsed<RngDeclView> {
    match get_name(l) {
        Err(e) => Err(e),
        Ok((name, l)) => match get_type_field(l, "ty"@) {
            Err(e) => Err(e),
            Ok((ty, l)) => Ok((RngDeclView { name, ty }, l)),
        },
    }
}

pub proof fn lemma_decls_shrink(l: LexView)
    ensures
        get_call_decl(l) matches Ok((_, m)) ==> m.rest.len() < l.rest.len(),
        get_rng_decl(l) matches Ok((_, m)) ==> m.rest.len() < l.rest.len(),
{
    broadcast use {group_shrinks, lemma_values_shrink, lemma_fields_shrink};

}

pub(crate) fn read_call_decl(lex: &mut Lexer) -> (r: Result<OracleDecl, ParseError>)
    ensures
        gives_view(r, final(lex)@, get_call_decl(old(lex)@)),
{
    let name: String = match read_name(lex) {
        Ok(x) => x,
        Err(e) => {
            return Err(e);
        },
    };
    let params: Vec<IRTypeId> = match read_types_field(lex, "params") {
        Ok(x) => x,
        Err(e) => {
            return Err(e);
        },
    };
    match read_types_field(lex, "results") {
        Ok(results) => Ok(OracleDecl { name, params, results }),
        Err(e) => Err(e),
    }
}

pub(crate) fn read_rng_decl(lex: &mut Lexer) -> (r: Result<RngDecl, ParseError>)
    ensures
        gives_view(r, final(lex)@, get_rng_decl(old(lex)@)),
{
    let name: String = match read_name(lex) {
        Ok(x) => x,
        Err(e) => {
            return Err(e);
        },
    };
    match read_type_field(lex, "ty") {
        Ok(ty) => Ok(RngDecl { name, ty }),
        Err(e) => Err(e),
    }
}

/// The words of lines and their keys are words, and no two words are the same.
pub proof fn lemma_line_words()
    ensures
        is_name("type"@),
        is_name("oracle"@),
        is_name("action"@),
        is_name("rng"@),
        is_name("begin_block"@),
        is_name("end_block"@),
        is_name("params"@),
        is_name("results"@),
        is_name("ty"@),
        "oracle"@ != "type"@,
        "action"@ != "type"@,
        "action"@ != "oracle"@,
        "rng"@ != "type"@,
        "rng"@ != "oracle"@,
        "rng"@ != "action"@,
        "begin_block"@ != "type"@,
        "begin_block"@ != "oracle"@,
        "begin_block"@ != "action"@,
        "begin_block"@ != "rng"@,
        "type"@[0] == 't',
        "oracle"@[0] == 'o',
        "action"@[0] == 'a',
        "rng"@[0] == 'r',
        "begin_block"@[0] == 'b',
        "end_block"@[0] == 'e',
        "params"@[0] == 'p',
{
    reveal_strlit("type");
    reveal_strlit("oracle");
    reveal_strlit("action");
    reveal_strlit("rng");
    reveal_strlit("begin_block");
    reveal_strlit("end_block");
    reveal_strlit("params");
    reveal_strlit("results");
    reveal_strlit("ty");
}

/// A declared function is read back.
pub proof fn lemma_call_decl(l: LexView, d: CallDeclView, k: Seq<char>)
    requires
        l.rest == call_decl_text(d) + k,
        at_blank(k),
    ensures
        reads(get_call_decl(l), d, k),
        at_blank(l.rest),
{
    lemma_line_words();
    let f1 = spaced(name_text(d.name));
    let f2 = field("params"@, types_text(d.params));
    let f3 = field("results"@, types_text(d.results));
    let k2 = f3 + k;
    let k1 = f2 + k2;
    lemma_joined(f1, f2 + f3, k);
    lemma_joined(f2, f3, k);
    lemma_field_blank("results"@, types_text(d.results), k);
    lemma_field_blank("params"@, types_text(d.params), k2);
    lemma_spaced_name(l, d.name, k1);
    let l1 = get_name(l)->Ok_0.1;
    lemma_types_field(l1, "params"@, d.params, k2);
    let l2 = get_types_field(l1, "params"@)->Ok_0.1;
    lemma_types_field(l2, "results"@, d.results, k);
}

/// A random source is read back.
pub proof fn lemma_rng_decl(l: LexView, d: RngDeclView, k: Seq<char>)
    requires
        l.rest == rng_decl_text(d) + k,
        at_blank(k),
    ensures
        reads(get_rng_decl(l), d, k),
        at_blank(l.rest),
{
    lemma_line_words();
    let f1 = spaced(name_text(d.name));
    let f2 = field("ty"@, type_text(d.ty));
    let k1 = f2 + k;
    lemma_joined(f1, f2, k);
    lemma_field_blank("ty"@, type_text(d.ty), k);
    lemma_spaced_name(l, d.name, k1);
    let l1 = get_name(l)->Ok_0.1;
    lemma_type_field(l1, "ty"@, d.ty, k);
}

// ---------------------------------------------------------------------------
// Blocks
// ---------------------------------------------------------------------------

/// The statements of a block from statement `i` on, a line for each. The first
/// one defines variable `base`.
pub open spec fn stmt_lines(base: nat, ss: Seq<StmtView>, i: int) -> Seq<char>
    decreases ss.len() - i,
{
    if i >= ss.len() {
        Seq::empty()
    } else {
        var_text(IRVarId((base + i) as u32)) + (seq![' ', '=', ' '] + (stmt_text(ss[i]) + (
        seq!['\n'] + stmt_lines(base, ss, i + 1))))
    }
}

/// A block behind its first word.
pub open spec fn block_text(n: nat, b: IRBlockView) -> Seq<char> {
    spaced(dec(n)) + (seq!['\n'] + ("params"@ + (spaced(types_text(b.params)) + (seq!['\n'] + (
    stmt_lines(b.params.len(), b.stmts, 0) + (term_text(b.terminator) + (seq!['\n'] + ("end_block"@
        + seq!['\n']))))))))
}

/// The blocks from block `i` on.
pub open spec fn block_lines(bs: Seq<IRBlockView>, i: int) -> Seq<char>
    decreases bs.len() - i,
{
    if i >= bs.len() {
        Seq::empty()
    } else {
        "begin_block"@ + (block_text(i as nat, bs[i]) + block_lines(bs, i + 1))
    }
}

/// Whether the variables of a block can be numbered.
pub open spec fn block_numbered(b: IRBlockView) -> bool {
    b.params.len() <= u32::MAX && b.params.len() + b.stmts.len() <= 0x1_0000_0000
}

/// Whether a block can be read back.
pub open spec fn block_writable(b: IRBlockView) -> bool {
    &&& block_numbered(b)
    &&& term_writable(b.terminator)
    &&& forall|i: int| 0 <= i < b.stmts.len() ==> stmt_writable(#[trigger] b.stmts[i])
}

fn put_stmts(w: &mut String, base: u32, stmts: &Vec<Node<IRStmt, ()>>)
    requires
        base + stmts@.len() <= 0x1_0000_0000,
    ensures
        final(w)@ == old(w)@ + stmt_lines(base as nat, node_kinds(stmts@), 0),
{
    let ghost ss = node_kinds(stmts@);
    let ghost n = base as nat;
    let ghost before = w@;
    let mut i: usize = 0;
    while i < stmts.len()
        invariant
            i <= stmts@.len(),
            ss == node_kinds(stmts@),
            n == base,
            base + stmts@.len() <= 0x1_0000_0000,
            w@ + stmt_lines(n, ss, i as int) == before + stmt_lines(n, ss, 0),
        decreases stmts@.len() - i,
    {
        assert(ss[i as int] == stmts@[i as int].kind@);
        let ghost sofar = w@;
        put_var(w, IRVarId(base + i as u32));
        w.push_str(" = ");
        write_ir_stmt(w, &stmts[i].kind);
        w.push('\n');
        proof {
            reveal_strlit(" = ");
            assert(" = "@ =~= seq![' ', '=', ' ']);
            let a = var_text(IRVarId((base + i) as u32));
            let b = seq![' ', '=', ' '];
            let c = stmt_text(ss[i as int]);
            let more = stmt_lines(n, ss, i + 1);
            assert(w@ =~= sofar + a + b + c + seq!['\n']);
            lemma_joined(sofar + a + b + c, seq!['\n'], more);
            lemma_joined(sofar + a + b, c, seq!['\n'] + more);
            lemma_joined(sofar + a, b, c + (seq!['\n'] + more));
            lemma_joined(sofar, a, b + (c + (seq!['\n'] + more)));
        }
        i += 1;
    }
    assert(w@ + stmt_lines(n, ss, i as int) =~= w@);
}

/// Append a block behind its first word.
fn write_ir_block(w: &mut String, id: usize, block: &IRBlock<()>)
    requires
        block_numbered(block@),
    ensures
        final(w)@ == old(w)@ + block_text(id as nat, block@),
{
    let ghost z = w@;
    put_spaced_number(w, id as u128);
    w.push('\n');
    w.push_str("params");
    put_spaced_types(w, &block.params);
    w.push('\n');
    put_stmts(w, block.params.len() as u32, &block.stmts);
    write_ir_terminator(w, &block.terminator);
    w.push('\n');
    w.push_str("end_block");
    w.push('\n');
    proof {
        let a = spaced(dec(id as nat));
        let n = seq!['\n'];
        let p = "params"@;
        let t = spaced(types_text(block@.params));
        let s = stmt_lines(block@.params.len(), block@.stmts, 0);
        let e = term_text(block@.terminator);
        let f = "end_block"@;
        assert(w@ =~= z + a + n + p + t + n + s + e + n + f + n);
        lemma_joined(z + a + n + p + t + n + s + e + n, f, n);
        lemma_joined(z + a + n + p + t + n + s + e, n, f + n);
        lemma_joined(z + a + n + p + t + n + s, e, n + (f + n));
        lemma_joined(z + a + n + p + t + n, s, e + (n + (f + n)));
        lemma_joined(z + a + n + p + t, n, s + (e + (n + (f + n))));
        lemma_joined(z + a + n + p, t, n + (s + (e + (n + (f + n)))));
        lemma_joined(z + a + n, p, t + (n + (s + (e + (n + (f + n))))));
        lemma_joined(z + a, n, p + (t + (n + (s + (e + (n + (f + n)))))));
        lemma_joined(z, a, n + (p + (t + (n + (s + (e + (n + (f + n))))))));
    }
}

/// Append blocks.
pub(crate) fn put_blocks(w: &mut String, bs: &Vec<IRBlock<()>>)
    requires
        forall|i: int| 0 <= i < bs@.len() ==> block_numbered(#[trigger] block_views(bs@)[i]),
    ensures
        final(w)@ == old(w)@ + block_lines(block_views(bs@), 0),
{
    let ghost vs = block_views(bs@);
    let ghost before = w@;
    let mut i: usize = 0;
    while i < bs.len()
        invariant
            i <= bs@.len(),
            vs == block_views(bs@),
            forall|j: int| 0 <= j < vs.len() ==> block_numbered(#[trigger] vs[j]),
            w@ + block_lines(vs, i as int) == before + block_lines(vs, 0),
        decreases bs@.len() - i,
    {
        assert(vs[i as int] == bs@[i as int]@);
        let ghost sofar = w@;
        w.push_str("begin_block");
        write_ir_block(w, i, &bs[i]);
        proof {
            let a = block_text(i as nat, vs[i as int]);
            let more = block_lines(vs, i + 1);
            lemma_joined(sofar + "begin_block"@, a, more);
            lemma_joined(sofar, "begin_block"@, a + more);
        }
        i += 1;
    }
    assert(w@ + block_lines(vs, i as int) =~= w@);
}

/// The statements and the end of a block.
pub open spec fn get_body(l: LexView, so_far: Seq<StmtView>) -> Parsed<
    (Seq<StmtView>, Option<TermView>),
>
    decreases l.rest.len(),
{
    let l = l.skipped();
    if l.rest.len() == 0 {
        Ok(((so_far, None), l))
    } else if l.at('v') {
        match get_var(l) {
            Err(e) => Err(e),
            Ok((_, l1)) => match get_char(l1, '=') {
                Err(e) => Err(e),
                Ok((_, l2)) => match get_ident(l2) {
                    Err(e) => Err(e),
                    Ok((kw, l3)) => match get_stmt(kw, l3) {
                        Err(e) => Err(e),
                        Ok((s, l4)) => {
                            proof {
                                broadcast use group_shrinks;

                                assert(get_item(l, true) == get_var(l));
                                lemma_stmt_shrinks(kw, l3);
                            }
                            get_body(l4, so_far.push(s))
                        },
                    },
                },
            },
        }
    } else {
        match get_ident(l) {
            Err(e) => Err(e),
            Ok((kw, l1)) => if kw == "end_block"@ {
                Ok(((so_far, None), l1))
            } else {
                match get_term(kw, l1) {
                    Err(e) => Err(e),
                    Ok((t, l2)) => match get_ident(l2) {
                        Err(e) => Err(e),
                        Ok((end, l3)) => if end != "end_block"@ {
                            Err(l3.error("expected end_block, got '"@ + end + "'"@))
                        } else {
                            Ok(((so_far, Some(t)), l3))
                        },
                    },
                }
            },
        }
    }
}

/// A block behind its number.
pub open spec fn get_block(l: LexView) -> Parsed<IRBlockView> {
    match get_ident(l) {
        Err(e) => Err(e),
        Ok((kw, l)) => if kw != "params"@ {
            Err(ErrorView::MissingField("params"@))
        } else {
            match get_types(l) {
                Err(e) => Err(e),
                Ok((params, l)) => match get_body(l, Seq::empty()) {
                    Err(e) => Err(e),
                    Ok((body, l)) => match body.1 {
                        None => Err(ErrorView::MissingField("terminator"@)),
                        Some(terminator) => Ok(
                            (IRBlockView { params, stmts: body.0, terminator }, l),
                        ),
                    },
                },
            }
        },
    }
}

proof fn lemma_body_shrinks(l: LexView, so_far: Seq<StmtView>)
    ensures
        get_body(l, so_far) matches Ok((_, m)) ==> m.rest.len() <= l.rest.len(),
    decreases l.rest.len(),
{
    broadcast use group_shrinks;

    let l = l.skipped();
    if l.rest.len() == 0 {
    } else if l.at('v') {
        assert(get_item(l, true) == get_var(l));
        match get_var(l) {
            Err(_) => {},
            Ok((_, l1)) => match get_char(l1, '=') {
                Err(_) => {},
                Ok((_, l2)) => match get_ident(l2) {
                    Err(_) => {},
                    Ok((kw, l3)) => {
                        lemma_stmt_shrinks(kw, l3);
                        match get_stmt(kw, l3) {
                            Err(_) => {},
                            Ok((s, l4)) => {
                                lemma_body_shrinks(l4, so_far.push(s));
                            },
                        }
                    },
                },
            },
        }
    } else {
        match get_ident(l) {
            Err(_) => {},
            Ok((kw, l1)) => {
                lemma_term_shrinks(kw, l1);
            },
        }
    }
}

pub proof fn lemma_block_shrinks(l: LexView)
    ensures
        get_block(l) matches Ok((_, m)) ==> m.rest.len() < l.rest.len(),
{
    broadcast use {group_shrinks, lemma_values_shrink};

    assert forall|x: LexView| #[trigger] get_body(x, Seq::empty()) matches Ok((_, m))
        ==> m.rest.len() <= x.rest.len() by {
        lemma_body_shrinks(x, Seq::empty());
    }
}

/// Whether no statement of a list belongs to a side.
pub open spec fn sideless(nodes: Seq<Node<IRStmt, ()>>) -> bool {
    forall|i: int| 0 <= i < nodes.len() ==> (#[trigger] nodes[i]).side is None
}

/// Read the statements and the end of a block.
fn read_body(lex: &mut Lexer) -> (r: Result<
    (Vec<Node<IRStmt, ()>>, Option<IRTerminator>),
    ParseError,
>)
    ensures
        match get_body(old(lex)@, Seq::empty()) {
            Ok((b, m)) => r matches Ok(x) && node_kinds(x.0@) == b.0 && sideless(x.0@) && (
            match x.1 {
                Some(t) => b.1 == Some(t@),
                None => b.1 is None,
            }) && final(lex)@ == m,
            Err(e) => r matches Err(x) && x@ == e,
        },
{
    let ghost whole = get_body(lex@, Seq::empty());
    let mut stmts: Vec<Node<IRStmt, ()>> = Vec::new();
    assert(node_kinds(stmts@) =~= Seq::empty());
    loop
        invariant
            whole == get_body(old(lex)@, Seq::empty()),
            whole == get_body(lex@, node_kinds(stmts@)),
            sideless(stmts@),
        decreases lex@.rest.len(),
    {
        broadcast use group_shrinks;

        if lex.is_eof() {
            return Ok((stmts, None));
        }
        if lex.peek_is('v') {
            proof {
                lemma_at_token(lex@);
                assert(get_item(lex@, true) == get_var(lex@));
            }
            match lex.read_var() {
                Ok(_) => {},
                Err(e) => {
                    return Err(e);
                },
            }
            match lex.expect('=') {
                Ok(_) => {},
                Err(e) => {
                    return Err(e);
                },
            }
            let kw: String = match lex.read_ident() {
                Ok(kw) => kw,
                Err(e) => {
                    return Err(e);
                },
            };
            proof {
                lemma_stmt_shrinks(kw@, lex@);
            }
            match parse_ir_stmt(&kw, lex) {
                Ok(s) => {
                    let ghost before = stmts@;
                    let ghost v = s@;
                    stmts.push(Node::new(s, (), None));
                    assert(node_kinds(stmts@) =~= node_kinds(before).push(v));
                },
                Err(e) => {
                    return Err(e);
                },
            }
        } else {
            proof {
                lemma_at_token(lex@);
            }
            let kw: String = match lex.read_ident() {
                Ok(kw) => kw,
                Err(e) => {
                    return Err(e);
                },
            };
            if is_word(&kw, "end_block") {
                return Ok((stmts, None));
            }
            let term: IRTerminator = match parse_ir_terminator(&kw, lex) {
                Ok(t) => t,
                Err(e) => {
                    return Err(e);
                },
            };
            let end: String = match lex.read_ident() {
                Ok(kw) => kw,
                Err(e) => {
                    return Err(e);
                },
            };
            if !is_word(&end, "end_block") {
                let at = lex.pos();
                let mut got: String = String::new();
                got.push_str("expected end_block, got '");
                got.push_str(end.as_str());
                got.push_str("'");
                assert(got@ =~= "expected end_block, got '"@ + end@ + "'"@);
                return Err(ParseError::UnexpectedToken { line: at.line, col: at.col, got });
            }
            return Ok((stmts, Some(term)));
        }
    }
}

/// Read a block behind its number.
pub(crate) fn parse_ir_block(lex: &mut Lexer) -> (r: Result<IRBlock<()>, ParseError>)
    ensures
        gives_view(r, final(lex)@, get_block(old(lex)@)),
        r matches Ok(b) ==> sideless(b.stmts@),
{
    match lex.read_ident() {
        Ok(kw) => {
            if !is_word(&kw, "params") {
                return Err(ParseError::MissingField("params".to_owned()));
            }
        },
        Err(e) => {
            return Err(e);
        },
    }
    let params: Vec<IRTypeId> = match read_types(lex) {
        Ok(x) => x,
        Err(e) => {
            return Err(e);
        },
    };
    match read_body(lex) {
        Ok((stmts, term)) => match term {
            Some(terminator) => Ok(IRBlock { params, stmts, terminator }),
            None => Err(ParseError::MissingField("terminator".to_owned())),
        },
        Err(e) => Err(e),
    }
}

/// The end of a block is read back.
proof fn lemma_end(l: LexView, ss: Seq<StmtView>, e: TermView, k: Seq<char>)
    requires
        term_writable(e),
        at_blank(k),
        l.skipped().rest == term_text(e) + (seq!['\n'] + ("end_block"@ + k)),
    ensures
        reads(get_body(l, ss), (ss, Some(e)), k),
        (term_text(e) + (seq!['\n'] + ("end_block"@ + k)))[0] == 'j',
{
    lemma_line_words();
    let end = "end_block"@ + k;
    let ek = seq!['\n'] + end;
    let s = l.skipped();
    assert(end[0] == 'e');
    assert(at_line_end(ek, end));
    lemma_term_split(e, ek);
    let tail = term_tail(e, ek);
    lemma_term(LexView { rest: tail, taken: 0, line: 0, col: 0 }, e, ek, end);
    assert((term_word(e) + tail)[0] == 'j');
    lemma_at_token(s);
    lemma_blank_ends(tail);
    lemma_word(s, term_word(e), tail);
    let l1 = get_ident(s)->Ok_0.1;
    assert(term_word(e) != "end_block"@);
    lemma_term(l1, e, ek, end);
    let l2 = get_term(term_word(e), l1)->Ok_0.1;
    lemma_blank_ends(k);
    lemma_word(l2, "end_block"@, k);
}

/// A statement of a block is read back.
proof fn lemma_step(
    l: LexView,
    v: u32,
    so_far: Seq<StmtView>,
    s: StmtView,
    more: Seq<char>,
) -> (m: LexView)
    requires
        stmt_writable(s),
        more.len() > 0,
        more[0] == 'v' || more[0] == 'j',
        l.skipped().rest == var_text(IRVarId(v)) + (seq![' ', '=', ' '] + (stmt_text(s) + (
        seq!['\n'] + more))),
    ensures
        m.skipped().rest == more,
        get_body(l, so_far) == get_body(m, so_far.push(s)),
{
    let x = l.skipped();
    let sk = seq!['\n'] + more;
    let c = stmt_text(s) + sk;
    let b = seq![' ', '=', ' '] + c;
    assert(at_line_end(sk, more));
    assert(sk[0] == '\n');
    lemma_stmt_split(s, sk);
    let tail = stmt_tail(s, sk);
    let word = stmt_word(s);
    lemma_stmt(LexView { rest: tail, taken: 0, line: 0, col: 0 }, s, sk, more);
    assert(x.rest[0] == 'v');
    lemma_at_token(x);
    let eq = seq!['='] + (seq![' '] + c);
    assert(b =~= seq![' '] + eq);
    assert(b[0] == ' ');
    lemma_item(x, v, true, b);
    assert(get_item(x, true) == get_var(x));
    let l1 = get_var(x)->Ok_0.1;
    assert(eq[0] == '=');
    lemma_past_blank(l1, ' ', eq);
    lemma_char(l1, '=', seq![' '] + c);
    let l2 = get_char(l1, '=')->Ok_0.1;
    assert(c == word + tail);
    assert(c[0] == word[0]);
    lemma_past_blank(l2, ' ', c);
    lemma_blank_ends(tail);
    lemma_word(l2, word, tail);
    let l3 = get_ident(l2)->Ok_0.1;
    lemma_stmt(l3, s, sk, more);
    get_stmt(word, l3)->Ok_0.1
}

/// The statements and the end of a block are read back.
proof fn lemma_body(
    l: LexView,
    base: nat,
    ss: Seq<StmtView>,
    e: TermView,
    i: int,
    k: Seq<char>,
)
    requires
        0 <= i <= ss.len(),
        forall|j: int| 0 <= j < ss.len() ==> stmt_writable(#[trigger] ss[j]),
        term_writable(e),
        at_blank(k),
        l.skipped().rest == stmt_lines(base, ss, i) + (term_text(e) + (seq!['\n'] + ("end_block"@
            + k))),
    ensures
        reads(get_body(l, ss.take(i)), (ss, Some(e)), k),
        l.skipped().rest.len() > 0,
        l.skipped().rest[0] == 'v' || l.skipped().rest[0] == 'j',
    decreases ss.len() - i,
{
    let te = term_text(e) + (seq!['\n'] + ("end_block"@ + k));
    if i == ss.len() {
        assert(l.skipped().rest =~= te);
        lemma_end(l, ss, e, k);
        assert(ss.take(i) =~= ss);
    } else {
        let v = (base + i) as u32;
        let lines = stmt_lines(base, ss, i + 1);
        let more = lines + te;
        let probe = LexView { rest: more, taken: 0, line: 0, col: 0 };
        assert(at_token(more)) by {
            lemma_more_starts(base, ss, e, i + 1, k);
        }
        lemma_at_token(probe);
        lemma_more_starts(base, ss, e, i + 1, k);
        let nl = seq!['\n'];
        let txt = stmt_text(ss[i]);
        let eq = seq![' ', '=', ' '];
        lemma_joined(var_text(IRVarId(v)), eq + (txt + (nl + lines)), te);
        lemma_joined(eq, txt + (nl + lines), te);
        lemma_joined(txt, nl + lines, te);
        lemma_joined(nl, lines, te);
        let m = lemma_step(l, v, ss.take(i), ss[i], more);
        lemma_body(m, base, ss, e, i + 1, k);
        assert(ss.take(i + 1) =~= ss.take(i).push(ss[i]));
        assert(l.skipped().rest[0] == 'v');
    }
}

proof fn lemma_more_starts(base: nat, ss: Seq<StmtView>, e: TermView, i: int, k: Seq<char>)
    requires
        term_writable(e),
        at_blank(k),
        0 <= i <= ss.len(),
    ensures
        ({
            let more = stmt_lines(base, ss, i) + (term_text(e) + (seq!['\n'] + ("end_block"@ + k)));
            more.len() > 0 && (more[0] == 'v' || more[0] == 'j')
        }),
{
    let te = term_text(e) + (seq!['\n'] + ("end_block"@ + k));
    let more = stmt_lines(base, ss, i) + te;
    if i < ss.len() {
        let v = var_text(IRVarId((base + i) as u32));
        assert(v[0] == 'v');
        assert(stmt_lines(base, ss, i)[0] == 'v');
        assert(more[0] == 'v');
    } else {
        assert(more =~= te);
        lemma_line_words();
        let end = "end_block"@ + k;
        let ek = seq!['\n'] + end;
        assert(end[0] == 'e');
        assert(at_line_end(ek, end));
        lemma_term_split(e, ek);
        let tail = term_tail(e, ek);
        lemma_term(LexView { rest: tail, taken: 0, line: 0, col: 0 }, e, ek, end);
        assert((term_word(e) + tail)[0] == 'j');
    }
}

/// A block is read back.
pub proof fn lemma_block(l: LexView, n: nat, b: IRBlockView, k: Seq<char>)
    requires
        block_writable(b),
        n <= u32::MAX,
        l.rest == block_text(n, b) + k,
    ensures
        reads(get_u32(l), n as u32, get_u32(l)->Ok_0.1.rest),
        reads(get_block(get_u32(l)->Ok_0.1), b, seq!['\n'] + k),
        at_blank(l.rest),
{
    lemma_line_words();
    let nl = seq!['\n'];
    let a = spaced(dec(n));
    let t = spaced(types_text(b.params));
    let end = "end_block"@ + (nl + k);
    let te = term_text(b.terminator) + (nl + end);
    let body = stmt_lines(b.params.len(), b.stmts, 0) + te;
    let k3 = nl + body;
    let k2 = t + k3;
    let p = "params"@ + k2;
    let k1 = nl + p;
    let lines = stmt_lines(b.params.len(), b.stmts, 0);
    let tt = term_text(b.terminator);
    let ee = "end_block"@;
    let pp = "params"@;
    lemma_joined(a, nl + (pp + (t + (nl + (lines + (tt + (nl + (ee + nl))))))), k);
    lemma_joined(nl, pp + (t + (nl + (lines + (tt + (nl + (ee + nl)))))), k);
    lemma_joined(pp, t + (nl + (lines + (tt + (nl + (ee + nl))))), k);
    lemma_joined(t, nl + (lines + (tt + (nl + (ee + nl)))), k);
    lemma_joined(nl, lines + (tt + (nl + (ee + nl))), k);
    lemma_joined(lines, tt + (nl + (ee + nl)), k);
    lemma_joined(tt, nl + (ee + nl), k);
    lemma_joined(nl, ee + nl, k);
    lemma_joined(ee, nl, k);
    assert(k1[0] == '\n');
    lemma_spaced_number(l, n, u32::MAX as nat, k1);
    let l1 = get_u32(l)->Ok_0.1;
    assert(p[0] == 'p');
    lemma_past_blank(l1, '\n', p);
    lemma_field_blank(Seq::empty(), types_text(b.params), k3);
    lemma_blank_ends(k2);
    lemma_word(l1, "params"@, k2);
    let l2 = get_ident(l1)->Ok_0.1;
    lemma_spaced_types(l2, b.params, k3);
    let l3 = get_types(l2)->Ok_0.1;
    assert((nl + k)[0] == '\n');
    lemma_more_starts(b.params.len(), b.stmts, b.terminator, 0, nl + k);
    lemma_past_blank(l3, '\n', body);
    lemma_body(l3, b.params.len(), b.stmts, b.terminator, 0, nl + k);
    assert(b.stmts.take(0) =~= Seq::empty());
}

} // verus!
