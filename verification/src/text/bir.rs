//! Boolean programs as text, and that reading gives back what was written.
//!
//! ```text
//! volar-ir v1
//! boolar:
//! begin_block 0
//! params 4
//! v4 = zero
//! v5 = and v0 v4
//! jmp return args=[v5]
//! end_block
//! ```

use vstd::prelude::*;

use crate::boolar::{
    bir_block_views, bir_node_kinds, BIrBlock, BIrBlockView, BIrBlocks, BIrBlocksView, BIrStmt,
    BIrStmtView, BIrTarget, BIrTargetView, BIrTermView, BIrTerminator,
};
use crate::common::Node;
use crate::fmt::dec;
use crate::ir::{IRBlockTargetId, IRVarId};
use crate::text::bir_stmt::{
    bir_stmt_tail, bir_stmt_text, bir_stmt_word, bir_stmt_writable, get_bir_stmt, lemma_bir_stmt,
    lemma_bir_stmt_shrinks, lemma_bir_stmt_split, parse_bir_stmt, write_bir_stmt,
};
use crate::text::error::{ErrorView, ParseError};
use crate::text::fields::{
    field, get_target, get_target_field, get_var_field, get_vars_field, lemma_blank_ends,
    lemma_field_blank, lemma_fields_shrink, lemma_spaced_number, lemma_spaced_target,
    lemma_target_field, lemma_values_shrink, lemma_var_field, lemma_vars_field, put_spaced_number,
    put_spaced_target, put_target_field, put_var, put_var_field, put_vars_field, read_target,
    read_target_field, read_var_field, read_vars_field, spaced, target_text, var_text, vars_text,
};
use crate::text::ir::lemma_header;
use crate::text::lexer::{
    get_char, get_ident, get_item, get_u32, get_var, gives_view, group_shrinks, is_word, try_char,
    LexView, Lexer, Parsed,
};
use crate::text::pieces::{
    at_blank, at_token, is_name, lemma_at_token, lemma_char, lemma_item, lemma_joined,
    lemma_past_blank, lemma_word, reads,
};
use crate::text::traits::{
    check_header, header_error, header_of, past_header, trim, ParseText, WriteText,
};

verus! {

// ---------------------------------------------------------------------------
// Ends
// ---------------------------------------------------------------------------

/// How a block ends.
#[verifier::opaque]
pub open spec fn bir_term_text(t: BIrTermView) -> Seq<char> {
    match t {
        BIrTermView::Jmp(target) => "jmp"@ + spaced(target_text(target.block)) + field(
            "args"@,
            vars_text(target.args),
        ),
        BIrTermView::CondJmp { val, then_target, else_target } => "cond_jmp"@ + field(
            "val"@,
            var_text(val),
        ) + field("then"@, target_text(then_target.block)) + field(
            "then_args"@,
            vars_text(then_target.args),
        ) + field("else"@, target_text(else_target.block)) + field(
            "else_args"@,
            vars_text(else_target.args),
        ),
    }
}

/// Append how a block ends.
pub fn write_bir_terminator(w: &mut String, term: &BIrTerminator)
    ensures
        final(w)@ == old(w)@ + bir_term_text(term@),
{
    reveal(bir_term_text);
    let ghost b = w@;
    match term {
        BIrTerminator::Jmp(target) => {
            w.push_str("jmp");
            put_spaced_target(w, &target.block);
            put_vars_field(w, "args", &target.args);
            proof {
                let f1 = spaced(target_text(target.block));
                let f2 = field("args"@, vars_text(target.args@));
                lemma_joined(b, "jmp"@, f1);
                lemma_joined(b, "jmp"@ + f1, f2);
            }
        },
        BIrTerminator::CondJmp { val, then_target, else_target } => {
            w.push_str("cond_jmp");
            put_var_field(w, "val", *val);
            put_target_field(w, "then", then_target.block);
            put_vars_field(w, "then_args", &then_target.args);
            put_target_field(w, "else", else_target.block);
            put_vars_field(w, "else_args", &else_target.args);
            proof {
                let f1 = field("val"@, var_text(*val));
                let f2 = field("then"@, target_text(then_target.block));
                let f3 = field("then_args"@, vars_text(then_target.args@));
                let f4 = field("else"@, target_text(else_target.block));
                let f5 = field("else_args"@, vars_text(else_target.args@));
                lemma_joined(b, "cond_jmp"@, f1);
                lemma_joined(b, "cond_jmp"@ + f1, f2);
                lemma_joined(b, "cond_jmp"@ + f1 + f2, f3);
                lemma_joined(b, "cond_jmp"@ + f1 + f2 + f3, f4);
                lemma_joined(b, "cond_jmp"@ + f1 + f2 + f3 + f4, f5);
            }
        },
    }
}

/// A jump.
pub open spec fn get_bir_jmp(l: LexView) -> Parsed<BIrTermView> {
    match get_target(l) {
        Err(e) => Err(e),
        Ok((block, l)) => match get_vars_field(l, "args"@) {
            Err(e) => Err(e),
            Ok((args, l)) => Ok((BIrTermView::Jmp(BIrTargetView { block, args }), l)),
        },
    }
}

/// A jump on a condition.
pub open spec fn get_bir_cond(l: LexView) -> Parsed<BIrTermView> {
    match get_var_field(l, "val"@) {
        Err(e) => Err(e),
        Ok((val, l)) => match get_target_field(l, "then"@) {
            Err(e) => Err(e),
            Ok((b1, l)) => match get_vars_field(l, "then_args"@) {
                Err(e) => Err(e),
                Ok((a1, l)) => match get_target_field(l, "else"@) {
                    Err(e) => Err(e),
                    Ok((b2, l)) => match get_vars_field(l, "else_args"@) {
                        Err(e) => Err(e),
                        Ok((a2, l)) => Ok(
                            (
                                BIrTermView::CondJmp {
                                    val,
                                    then_target: BIrTargetView { block: b1, args: a1 },
                                    else_target: BIrTargetView { block: b2, args: a2 },
                                },
                                l,
                            ),
                        ),
                    },
                },
            },
        },
    }
}

/// How a block ends, behind its word.
#[verifier::opaque]
pub open spec fn get_bir_term(kw: Seq<char>, l: LexView) -> Parsed<BIrTermView> {
    if kw == "jmp"@ {
        get_bir_jmp(l)
    } else if kw == "cond_jmp"@ {
        get_bir_cond(l)
    } else {
        Err(l.error("unknown BIR terminator '"@ + kw + "'"@))
    }
}

/// An end ends no further on than the text is long.
pub proof fn lemma_bir_term_shrinks(kw: Seq<char>, l: LexView)
    ensures
        get_bir_term(kw, l) matches Ok((_, m)) ==> m.rest.len() <= l.rest.len(),
{
    broadcast use {group_shrinks, lemma_values_shrink, lemma_fields_shrink};

    reveal(get_bir_term);
}

fn read_bir_jmp(lex: &mut Lexer) -> (r: Result<BIrTerminator, ParseError>)
    ensures
        gives_view(r, final(lex)@, get_bir_jmp(old(lex)@)),
{
    let block: IRBlockTargetId = match read_target(lex) {
        Ok(x) => x,
        Err(e) => {
            return Err(e);
        },
    };
    match read_vars_field(lex, "args") {
        Ok(args) => Ok(BIrTerminator::Jmp(BIrTarget { block, args })),
        Err(e) => Err(e),
    }
}

fn read_bir_cond(lex: &mut Lexer) -> (r: Result<BIrTerminator, ParseError>)
    ensures
        gives_view(r, final(lex)@, get_bir_cond(old(lex)@)),
{
    let val: IRVarId = match read_var_field(lex, "val") {
        Ok(x) => x,
        Err(e) => {
            return Err(e);
        },
    };
    let b1: IRBlockTargetId = match read_target_field(lex, "then") {
        Ok(x) => x,
        Err(e) => {
            return Err(e);
        },
    };
    let a1: Vec<IRVarId> = match read_vars_field(lex, "then_args") {
        Ok(x) => x,
        Err(e) => {
            return Err(e);
        },
    };
    let b2: IRBlockTargetId = match read_target_field(lex, "else") {
        Ok(x) => x,
        Err(e) => {
            return Err(e);
        },
    };
    match read_vars_field(lex, "else_args") {
        Ok(a2) => Ok(
            BIrTerminator::CondJmp {
                val,
                then_target: BIrTarget { block: b1, args: a1 },
                else_target: BIrTarget { block: b2, args: a2 },
            },
        ),
        Err(e) => Err(e),
    }
}

/// Read how a block ends, behind its word.
pub fn parse_bir_terminator(kw: &String, lex: &mut Lexer) -> (r: Result<BIrTerminator, ParseError>)
    ensures
        gives_view(r, final(lex)@, get_bir_term(kw@, old(lex)@)),
{
    reveal(get_bir_term);
    if is_word(kw, "jmp") {
        read_bir_jmp(lex)
    } else if is_word(kw, "cond_jmp") {
        read_bir_cond(lex)
    } else {
        let at = lex.pos();
        let mut got: String = String::new();
        got.push_str("unknown BIR terminator '");
        got.push_str(kw.as_str());
        got.push_str("'");
        assert(got@ =~= "unknown BIR terminator '"@ + kw@ + "'"@);
        Err(ParseError::UnexpectedToken { line: at.line, col: at.col, got })
    }
}

/// The words of ends and their keys are words, and no two words are the same.
proof fn lemma_bir_term_words()
    ensures
        is_name("jmp"@),
        is_name("cond_jmp"@),
        is_name("args"@),
        is_name("val"@),
        is_name("then"@),
        is_name("then_args"@),
        is_name("else"@),
        is_name("else_args"@),
        "cond_jmp"@ != "jmp"@,
        "jmp"@[0] == 'j',
        "cond_jmp"@[0] == 'c',
{
    reveal_strlit("jmp");
    reveal_strlit("cond_jmp");
    reveal_strlit("args");
    reveal_strlit("val");
    reveal_strlit("then");
    reveal_strlit("then_args");
    reveal_strlit("else");
    reveal_strlit("else_args");
}

/// The word of an end.
#[verifier::opaque]
pub open spec fn bir_term_word(t: BIrTermView) -> Seq<char> {
    match t {
        BIrTermView::Jmp(_) => "jmp"@,
        BIrTermView::CondJmp { .. } => "cond_jmp"@,
    }
}

/// What stands behind the word of an end, with `k` behind it.
#[verifier::opaque]
pub open spec fn bir_term_tail(t: BIrTermView, k: Seq<char>) -> Seq<char> {
    match t {
        BIrTermView::Jmp(target) => spaced(target_text(target.block)) + (field(
            "args"@,
            vars_text(target.args),
        ) + k),
        BIrTermView::CondJmp { val, then_target, else_target } => field("val"@, var_text(val)) + (
        field("then"@, target_text(then_target.block)) + (field(
            "then_args"@,
            vars_text(then_target.args),
        ) + (field("else"@, target_text(else_target.block)) + (field(
            "else_args"@,
            vars_text(else_target.args),
        ) + k)))),
    }
}

/// An end is its word and what stands behind it.
proof fn lemma_bir_term_split(t: BIrTermView, k: Seq<char>)
    ensures
        bir_term_text(t) + k == bir_term_word(t) + bir_term_tail(t, k),
        at_blank(bir_term_tail(t, k)),
        bir_term_word(t).len() > 0,
        bir_term_word(t)[0] == 'j' || bir_term_word(t)[0] == 'c',
{
    broadcast use lemma_joined;

    lemma_bir_term_words();
    reveal(bir_term_text);
    reveal(bir_term_tail);
    reveal(bir_term_word);
    match t {
        BIrTermView::Jmp(target) => {
            lemma_field_blank(
                Seq::empty(),
                target_text(target.block),
                field("args"@, vars_text(target.args)) + k,
            );
        },
        BIrTermView::CondJmp { val, then_target, else_target } => {
            lemma_field_blank(
                "val"@,
                var_text(val),
                field("then"@, target_text(then_target.block)) + (field(
                    "then_args"@,
                    vars_text(then_target.args),
                ) + (field("else"@, target_text(else_target.block)) + (field(
                    "else_args"@,
                    vars_text(else_target.args),
                ) + k))),
            );
        },
    }
}

/// An end is read back.
pub proof fn lemma_bir_term(l: LexView, v: BIrTermView, k: Seq<char>)
    requires
        at_blank(k),
        l.rest == bir_term_tail(v, k),
    ensures
        is_name(bir_term_word(v)),
        reads(get_bir_term(bir_term_word(v), l), v, k),
{
    reveal(bir_term_tail);
    reveal(bir_term_word);
    reveal(get_bir_term);
    lemma_bir_term_words();
    match v {
        BIrTermView::Jmp(target) => {
            let k1 = field("args"@, vars_text(target.args)) + k;
            lemma_field_blank("args"@, vars_text(target.args), k);
            lemma_spaced_target(l, target.block, k1);
            let l1 = get_target(l)->Ok_0.1;
            lemma_vars_field(l1, "args"@, target.args, k);
        },
        BIrTermView::CondJmp { val, then_target, else_target } => {
            let k4 = field("else_args"@, vars_text(else_target.args)) + k;
            let k3 = field("else"@, target_text(else_target.block)) + k4;
            let k2 = field("then_args"@, vars_text(then_target.args)) + k3;
            let k1 = field("then"@, target_text(then_target.block)) + k2;
            lemma_field_blank("else_args"@, vars_text(else_target.args), k);
            lemma_field_blank("else"@, target_text(else_target.block), k4);
            lemma_field_blank("then_args"@, vars_text(then_target.args), k3);
            lemma_field_blank("then"@, target_text(then_target.block), k2);
            lemma_var_field(l, "val"@, val, k1);
            let l1 = get_var_field(l, "val"@)->Ok_0.1;
            lemma_target_field(l1, "then"@, then_target.block, k2);
            let l2 = get_target_field(l1, "then"@)->Ok_0.1;
            lemma_vars_field(l2, "then_args"@, then_target.args, k3);
            let l3 = get_vars_field(l2, "then_args"@)->Ok_0.1;
            lemma_target_field(l3, "else"@, else_target.block, k4);
            let l4 = get_target_field(l3, "else"@)->Ok_0.1;
            lemma_vars_field(l4, "else_args"@, else_target.args, k);
        },
    }
}

// ---------------------------------------------------------------------------
// Blocks
// ---------------------------------------------------------------------------

/// The statements of a block from statement `i` on, a line for each. The first
/// one defines variable `base`.
pub open spec fn bir_stmt_lines(base: nat, ss: Seq<BIrStmtView>, i: int) -> Seq<char>
    decreases ss.len() - i,
{
    if i >= ss.len() {
        Seq::empty()
    } else {
        var_text(IRVarId((base + i) as u32)) + (seq![' ', '=', ' '] + (bir_stmt_text(ss[i]) + (
        seq!['\n'] + bir_stmt_lines(base, ss, i + 1))))
    }
}

/// A block behind its first word.
pub open spec fn bir_block_text(n: nat, b: BIrBlockView) -> Seq<char> {
    spaced(dec(n)) + (seq!['\n'] + ("params"@ + (spaced(dec(b.params as nat)) + (seq!['\n'] + (
    bir_stmt_lines(b.params as nat, b.stmts, 0) + (bir_term_text(b.terminator) + (seq!['\n'] + (
    "end_block"@ + seq!['\n']))))))))
}

/// The blocks from block `i` on.
pub open spec fn bir_block_lines(bs: Seq<BIrBlockView>, i: int) -> Seq<char>
    decreases bs.len() - i,
{
    if i >= bs.len() {
        Seq::empty()
    } else {
        "begin_block"@ + (bir_block_text(i as nat, bs[i]) + bir_block_lines(bs, i + 1))
    }
}

/// Whether the variables of a block can be numbered.
pub open spec fn bir_block_numbered(b: BIrBlockView) -> bool {
    b.params + b.stmts.len() <= 0x1_0000_0000
}

/// Whether a block can be read back.
pub open spec fn bir_block_writable(b: BIrBlockView) -> bool {
    &&& bir_block_numbered(b)
    &&& forall|i: int| 0 <= i < b.stmts.len() ==> bir_stmt_writable(#[trigger] b.stmts[i])
}

fn put_bir_stmts(w: &mut String, base: u32, stmts: &Vec<Node<BIrStmt, ()>>)
    requires
        base + stmts@.len() <= 0x1_0000_0000,
    ensures
        final(w)@ == old(w)@ + bir_stmt_lines(base as nat, bir_node_kinds(stmts@), 0),
{
    let ghost ss = bir_node_kinds(stmts@);
    let ghost n = base as nat;
    let ghost before = w@;
    let mut i: usize = 0;
    while i < stmts.len()
        invariant
            i <= stmts@.len(),
            ss == bir_node_kinds(stmts@),
            n == base,
            base + stmts@.len() <= 0x1_0000_0000,
            w@ + bir_stmt_lines(n, ss, i as int) == before + bir_stmt_lines(n, ss, 0),
        decreases stmts@.len() - i,
    {
        assert(ss[i as int] == stmts@[i as int].kind@);
        let ghost sofar = w@;
        put_var(w, IRVarId(base + i as u32));
        w.push_str(" = ");
        write_bir_stmt(w, &stmts[i].kind);
        w.push('\n');
        proof {
            reveal_strlit(" = ");
            assert(" = "@ =~= seq![' ', '=', ' ']);
            let a = var_text(IRVarId((base + i) as u32));
            let b = seq![' ', '=', ' '];
            let c = bir_stmt_text(ss[i as int]);
            let more = bir_stmt_lines(n, ss, i + 1);
            assert(w@ =~= sofar + a + b + c + seq!['\n']);
            lemma_joined(sofar + a + b + c, seq!['\n'], more);
            lemma_joined(sofar + a + b, c, seq!['\n'] + more);
            lemma_joined(sofar + a, b, c + (seq!['\n'] + more));
            lemma_joined(sofar, a, b + (c + (seq!['\n'] + more)));
        }
        i += 1;
    }
    assert(w@ + bir_stmt_lines(n, ss, i as int) =~= w@);
}

/// Append a block behind its first word.
fn write_bir_block(w: &mut String, id: usize, block: &BIrBlock<()>)
    requires
        bir_block_numbered(block@),
    ensures
        final(w)@ == old(w)@ + bir_block_text(id as nat, block@),
{
    let ghost z = w@;
    put_spaced_number(w, id as u128);
    w.push('\n');
    w.push_str("params");
    put_spaced_number(w, block.params as u128);
    w.push('\n');
    put_bir_stmts(w, block.params, &block.stmts);
    write_bir_terminator(w, &block.terminator);
    w.push('\n');
    w.push_str("end_block");
    w.push('\n');
    proof {
        let a = spaced(dec(id as nat));
        let n = seq!['\n'];
        let p = "params"@;
        let t = spaced(dec(block.params as nat));
        let s = bir_stmt_lines(block@.params as nat, block@.stmts, 0);
        let e = bir_term_text(block@.terminator);
        let f = "end_block"@;
        assert(w@ =~= z + a + n + p + t + n + s + e + n + f + n);
        lemma_joined(z + a + n + p + t + n + s + e + n, f, n);
        lemma_joined(z + a + n + p + t + n + s + e, n, f + n);
        lemma_joined(z + a + n + p + t + n + s, e, n + (f + n));
        lemma_joined(z + a + n + p + t + n, s, e + (n + (f + n)));
        lemma_joined(z + a + n + p + t, n, s + (e + (n + (f + n))));
        lemma_joined(z + a + n + p, t, n + (s + (e + (n + (f + n)))));
        lemma_joined(z + a + n, p, t + (n + (s + (e + (n + (f + n))))));
        lemma_joined(z + a, n, p + (t + (n + (s + (e + (n + (f + n)))))));
        lemma_joined(z, a, n + (p + (t + (n + (s + (e + (n + (f + n))))))));
    }
}

fn put_bir_blocks(w: &mut String, bs: &Vec<BIrBlock<()>>)
    requires
        forall|i: int| 0 <= i < bs@.len() ==> bir_block_numbered(#[trigger] bir_block_views(bs@)[i]),
    ensures
        final(w)@ == old(w)@ + bir_block_lines(bir_block_views(bs@), 0),
{
    let ghost vs = bir_block_views(bs@);
    let ghost before = w@;
    let mut i: usize = 0;
    while i < bs.len()
        invariant
            i <= bs@.len(),
            vs == bir_block_views(bs@),
            forall|j: int| 0 <= j < vs.len() ==> bir_block_numbered(#[trigger] vs[j]),
            w@ + bir_block_lines(vs, i as int) == before + bir_block_lines(vs, 0),
        decreases bs@.len() - i,
    {
        assert(vs[i as int] == bs@[i as int]@);
        let ghost sofar = w@;
        w.push_str("begin_block");
        write_bir_block(w, i, &bs[i]);
        proof {
            let a = bir_block_text(i as nat, vs[i as int]);
            let more = bir_block_lines(vs, i + 1);
            lemma_joined(sofar + "begin_block"@, a, more);
            lemma_joined(sofar, "begin_block"@, a + more);
        }
        i += 1;
    }
    assert(w@ + bir_block_lines(vs, i as int) =~= w@);
}

/// The statements and the end of a block.
pub open spec fn get_bir_body(l: LexView, so_far: Seq<BIrStmtView>) -> Parsed<
    (Seq<BIrStmtView>, Option<BIrTermView>),
>
    decreases l.rest.len(),
{
    let l = l.skipped();
    if l.rest.len() == 0 {
        Ok(((so_far, None), l))
    } else if l.at('v') {
        match get_var(l) {
            Err(e) => Err(e),
            Ok((_, l1)) => match get_char(l1, '=') {
                Err(e) => Err(e),
                Ok((_, l2)) => match get_ident(l2) {
                    Err(e) => Err(e),
                    Ok((kw, l3)) => match get_bir_stmt(kw, l3) {
                        Err(e) => Err(e),
                        Ok((s, l4)) => {
                            proof {
                                broadcast use group_shrinks;

                                assert(get_item(l, true) == get_var(l));
                                lemma_bir_stmt_shrinks(kw, l3);
                            }
                            get_bir_body(l4, so_far.push(s))
                        },
                    },
                },
            },
        }
    } else {
        match get_ident(l) {
            Err(e) => Err(e),
            Ok((kw, l1)) => if kw == "end_block"@ {
                Ok(((so_far, None), l1))
            } else {
                match get_bir_term(kw, l1) {
                    Err(e) => Err(e),
                    Ok((t, l2)) => match get_ident(l2) {
                        Err(e) => Err(e),
                        Ok((end, l3)) => if end != "end_block"@ {
                            Err(l3.error("expected end_block, got '"@ + end + "'"@))
                        } else {
                            Ok(((so_far, Some(t)), l3))
                        },
                    },
                }
            },
        }
    }
}

/// A block behind its number.
pub open spec fn get_bir_block(l: LexView) -> Parsed<BIrBlockView> {
    match get_ident(l) {
        Err(e) => Err(e),
        Ok((kw, l)) => if kw != "params"@ {
            Err(ErrorView::MissingField("params"@))
        } else {
            match get_u32(l) {
                Err(e) => Err(e),
                Ok((params, l)) => match get_bir_body(l, Seq::empty()) {
                    Err(e) => Err(e),
                    Ok((body, l)) => match body.1 {
                        None => Err(ErrorView::MissingField("terminator"@)),
                        Some(terminator) => Ok(
                            (BIrBlockView { params, stmts: body.0, terminator }, l),
                        ),
                    },
                },
            }
        },
    }
}

proof fn lemma_bir_body_shrinks(l: LexView, so_far: Seq<BIrStmtView>)
    ensures
        get_bir_body(l, so_far) matches Ok((_, m)) ==> m.rest.len() <= l.rest.len(),
    decreases l.rest.len(),
{
    broadcast use group_shrinks;

    let l = l.skipped();
    if l.rest.len() == 0 {
    } else if l.at('v') {
        assert(get_item(l, true) == get_var(l));
        match get_var(l) {
            Err(_) => {},
            Ok((_, l1)) => match get_char(l1, '=') {
                Err(_) => {},
                Ok((_, l2)) => match get_ident(l2) {
                    Err(_) => {},
                    Ok((kw, l3)) => {
                        lemma_bir_stmt_shrinks(kw, l3);
                        match get_bir_stmt(kw, l3) {
                            Err(_) => {},
                            Ok((s, l4)) => {
                                lemma_bir_body_shrinks(l4, so_far.push(s));
                            },
                        }
                    },
                },
            },
        }
    } else {
        match get_ident(l) {
            Err(_) => {},
            Ok((kw, l1)) => {
                lemma_bir_term_shrinks(kw, l1);
            },
        }
    }
}

pub proof fn lemma_bir_block_shrinks(l: LexView)
    ensures
        get_bir_block(l) matches Ok((_, m)) ==> m.rest.len() < l.rest.len(),
{
    broadcast use {group_shrinks, lemma_values_shrink};

    assert forall|x: LexView| #[trigger] get_bir_body(x, Seq::empty()) matches Ok((_, m))
        ==> m.rest.len() <= x.rest.len() by {
        lemma_bir_body_shrinks(x, Seq::empty());
    }
}

/// Whether no statement of a list belongs to a side.
pub open spec fn bir_sideless(nodes: Seq<Node<BIrStmt, ()>>) -> bool {
    forall|i: int| 0 <= i < nodes.len() ==> (#[trigger] nodes[i]).side is None
}

/// Read the statements and the end of a block.
#[verifier::rlimit(60)]
fn read_bir_body(lex: &mut Lexer) -> (r: Result<
    (Vec<Node<BIrStmt, ()>>, Option<BIrTerminator>),
    ParseError,
>)
    ensures
        match get_bir_body(old(lex)@, Seq::empty()) {
            Ok((b, m)) => r matches Ok(x) && bir_node_kinds(x.0@) == b.0 && bir_sideless(x.0@) && (
            match x.1 {
                Some(t) => b.1 == Some(t@),
                None => b.1 is None,
            }) && final(lex)@ == m,
            Err(e) => r matches Err(x) && x@ == e,
        },
{
    let ghost whole = get_bir_body(lex@, Seq::empty());
    let mut stmts: Vec<Node<BIrStmt, ()>> = Vec::new();
    assert(bir_node_kinds(stmts@) =~= Seq::empty());
    loop
        invariant
            whole == get_bir_body(old(lex)@, Seq::empty()),
            whole == get_bir_body(lex@, bir_node_kinds(stmts@)),
            bir_sideless(stmts@),
        decreases lex@.rest.len(),
    {
        broadcast use group_shrinks;

        if lex.is_eof() {
            return Ok((stmts, None));
        }
        if lex.peek_is('v') {
            proof {
                lemma_at_token(lex@);
                assert(get_item(lex@, true) == get_var(lex@));
            }
            match lex.read_var() {
                Ok(_) => {},
                Err(e) => {
                    return Err(e);
                },
            }
            match lex.expect('=') {
                Ok(_) => {},
                Err(e) => {
                    return Err(e);
                },
            }
            let kw: String = match lex.read_ident() {
                Ok(kw) => kw,
                Err(e) => {
                    return Err(e);
                },
            };
            proof {
                lemma_bir_stmt_shrinks(kw@, lex@);
            }
            match parse_bir_stmt(&kw, lex) {
                Ok(s) => {
                    let ghost before = stmts@;
                    let ghost v = s@;
                    stmts.push(Node::new(s, (), None));
                    assert(bir_node_kinds(stmts@) =~= bir_node_kinds(before).push(v));
                },
                Err(e) => {
                    return Err(e);
                },
            }
        } else {
            proof {
                lemma_at_token(lex@);
            }
            let kw: String = match lex.read_ident() {
                Ok(kw) => kw,
                Err(e) => {
                    return Err(e);
                },
            };
            if is_word(&kw, "end_block") {
                return Ok((stmts, None));
            }
            let term: BIrTerminator = match parse_bir_terminator(&kw, lex) {
                Ok(t) => t,
                Err(e) => {
                    return Err(e);
                },
            };
            let end: String = match lex.read_ident() {
                Ok(kw) => kw,
                Err(e) => {
                    return Err(e);
                },
            };
            if !is_word(&end, "end_block") {
                let at = lex.pos();
                let mut got: String = String::new();
                got.push_str("expected end_block, got '");
                got.push_str(end.as_str());
                got.push_str("'");
                assert(got@ =~= "expected end_block, got '"@ + end@ + "'"@);
                return Err(ParseError::UnexpectedToken { line: at.line, col: at.col, got });
            }
            return Ok((stmts, Some(term)));
        }
    }
}

/// Read a block behind its number.
pub(crate) fn parse_bir_block(lex: &mut Lexer) -> (r: Result<BIrBlock<()>, ParseError>)
    ensures
        gives_view(r, final(lex)@, get_bir_block(old(lex)@)),
        r matches Ok(b) ==> bir_sideless(b.stmts@),
{
    match lex.read_ident() {
        Ok(kw) => {
            if !is_word(&kw, "params") {
                return Err(ParseError::MissingField("params".to_owned()));
            }
        },
        Err(e) => {
            return Err(e);
        },
    }
    let params: u32 = match lex.read_u32() {
        Ok(x) => x,
        Err(e) => {
            return Err(e);
        },
    };
    match read_bir_body(lex) {
        Ok((stmts, term)) => match term {
            Some(terminator) => Ok(BIrBlock { params, stmts, terminator }),
            None => Err(ParseError::MissingField("terminator".to_owned())),
        },
        Err(e) => Err(e),
    }
}

// ---------------------------------------------------------------------------
// Programs
// ---------------------------------------------------------------------------

/// A boolean program.
#[derive(PartialEq, Eq, Debug)]
pub struct SavedBIrBlocks {
    pub blocks: BIrBlocks<()>,
}

impl View for SavedBIrBlocks {
    type V = BIrBlocksView;

    open spec fn view(&self) -> BIrBlocksView {
        self.blocks@
    }
}

/// A program as text. Initial storage is not written.
pub open spec fn bir_text(p: BIrBlocksView) -> Seq<char> {
    "volar-ir v1"@ + (seq!['\n'] + ("boolar:"@ + (seq!['\n'] + bir_block_lines(p.blocks, 0))))
}

/// Whether a program can be read back: see the parts; there is no initial
/// storage, and blocks can be numbered.
pub open spec fn bir_writable(p: BIrBlocksView) -> bool {
    &&& forall|i: int| 0 <= i < p.blocks.len() ==> bir_block_writable(#[trigger] p.blocks[i])
    &&& p.blocks.len() <= 0x1_0000_0000
    &&& p.pre_init.len() == 0
}

/// The state behind the version line and the section line.
pub open spec fn get_bir_section(s: Seq<char>) -> Result<LexView, ErrorView> {
    match header_error(
        header_of(s),
        "volar-ir v1"@,
        seq!["volar-ir v"@, "volar-bir v"@],
    ) {
        Some(e) => Err(e),
        None => match get_ident(past_header(s)) {
            Err(e) => Err(e),
            Ok((section, l)) => if section == "boolar"@ && try_char(l, ':').0 {
                Ok(try_char(l, ':').1)
            } else {
                Err(ErrorView::UnexpectedToken { line: 2, col: 1, got: section })
            },
        },
    }
}

/// The blocks of a program.
pub open spec fn get_bir_blocks(l: LexView, so_far: Seq<BIrBlockView>) -> Result<
    Seq<BIrBlockView>,
    ErrorView,
>
    decreases l.rest.len(),
{
    let l = l.skipped();
    if l.rest.len() == 0 {
        Ok(so_far)
    } else {
        match get_ident(l) {
            Err(e) => Err(e),
            Ok((kw, l1)) => if kw == "begin_block"@ {
                match get_u32(l1) {
                    Err(e) => Err(e),
                    Ok((_, l2)) => match get_bir_block(l2) {
                        Err(e) => Err(e),
                        Ok((b, l3)) => {
                            proof {
                                broadcast use group_shrinks;

                                lemma_values_shrink(l1);
                                lemma_bir_block_shrinks(l2);
                            }
                            get_bir_blocks(l3, so_far.push(b))
                        },
                    },
                }
            } else {
                Err(ErrorView::UnknownDirective(kw))
            },
        }
    }
}

/// What reading the text `s` gives: a version line, a section line, blocks.
pub open spec fn get_bir(s: Seq<char>) -> Result<BIrBlocksView, ErrorView> {
    match get_bir_section(s) {
        Err(e) => Err(e),
        Ok(l) => match get_bir_blocks(l, Seq::empty()) {
            Err(e) => Err(e),
            Ok(blocks) => Ok(BIrBlocksView { blocks, pre_init: Seq::empty() }),
        },
    }
}

/// Whether no statement of a program belongs to a side.
pub open spec fn bir_program_sideless(blocks: Seq<BIrBlock<()>>) -> bool {
    forall|i: int| 0 <= i < blocks.len() ==> bir_sideless((#[trigger] blocks[i]).stmts@)
}

impl WriteText for SavedBIrBlocks {
    open spec fn can_write(&self) -> bool {
        forall|i: int| 0 <= i < self@.blocks.len() ==> bir_block_numbered(#[trigger] self@.blocks[i])
    }

    open spec fn text(&self) -> Seq<char> {
        bir_text(self@)
    }

    fn write_text(&self, w: &mut String) {
        let ghost z = w@;
        w.push_str("volar-ir v1");
        w.push('\n');
        w.push_str("boolar:");
        w.push('\n');
        assert(self@.blocks == bir_block_views(self.blocks.blocks@));
        put_bir_blocks(w, &self.blocks.blocks);
        proof {
            let h = "volar-ir v1"@;
            let n = seq!['\n'];
            let s = "boolar:"@;
            let b = bir_block_lines(self@.blocks, 0);
            assert(w@ =~= z + h + n + s + n + b);
            lemma_joined(z + h + n + s, n, b);
            lemma_joined(z + h + n, s, n + b);
            lemma_joined(z + h, n, s + (n + b));
            lemma_joined(z, h, n + (s + (n + b)));
        }
    }
}

/// Read the version line and the section line.
pub(crate) fn read_bir_section(s: &str) -> (r: Result<Lexer, ParseError>)
    ensures
        match get_bir_section(s@) {
            Ok(l) => r matches Ok(x) && x@ == l,
            Err(e) => r matches Err(x) && x@ == e,
        },
{
    let mut lex: Lexer = Lexer::new(s);
    let line: String = lex.read_to_newline();
    let header: String = trim(&line);
    let others: Vec<&str> = vec!["volar-ir v", "volar-bir v"];
    assert(others@.map_values(|t: &str| t@) =~= seq!["volar-ir v"@, "volar-bir v"@]);
    match check_header(&header, "volar-ir v1", &others) {
        Ok(_) => {},
        Err(e) => {
            return Err(e);
        },
    }
    let section: String = match lex.read_ident() {
        Ok(kw) => kw,
        Err(e) => {
            return Err(e);
        },
    };
    if is_word(&section, "boolar") && lex.take(':') {
        Ok(lex)
    } else {
        Err(ParseError::UnexpectedToken { line: 2, col: 1, got: section })
    }
}

/// Read a program.
pub fn parse_saved_bir_blocks(s: &str) -> (r: Result<SavedBIrBlocks, ParseError>)
    ensures
        match get_bir(s@) {
            Ok(p) => r matches Ok(x) && x@ == p && bir_program_sideless(x.blocks.blocks@),
            Err(e) => r matches Err(x) && x@ == e,
        },
{
    let mut lex: Lexer = match read_bir_section(s) {
        Ok(lex) => lex,
        Err(e) => {
            return Err(e);
        },
    };
    let ghost l0 = lex@;
    let mut blocks: Vec<BIrBlock<()>> = Vec::new();
    assert(bir_block_views(blocks@) =~= Seq::empty());
    while !lex.is_eof()
        invariant
            get_bir_section(s@) == Ok::<LexView, ErrorView>(l0),
            get_bir_blocks(l0, Seq::empty()) == get_bir_blocks(lex@, bir_block_views(blocks@)),
            bir_program_sideless(blocks@),
        ensures
            lex@.rest.len() == 0,
        decreases lex@.rest.len(),
    {
        broadcast use group_shrinks;

        proof {
            lemma_at_token(lex@);
        }
        let kw: String = match lex.read_ident() {
            Ok(kw) => kw,
            Err(e) => {
                return Err(e);
            },
        };
        if !is_word(&kw, "begin_block") {
            return Err(ParseError::UnknownDirective(kw));
        }
        match lex.read_u32() {
            Ok(_) => {},
            Err(e) => {
                return Err(e);
            },
        }
        proof {
            lemma_bir_block_shrinks(lex@);
        }
        match parse_bir_block(&mut lex) {
            Ok(b) => {
                let ghost before = blocks@;
                let ghost v = b@;
                blocks.push(b);
                assert(bir_block_views(blocks@) =~= bir_block_views(before).push(v));
            },
            Err(e) => {
                return Err(e);
            },
        }
    }
    let p = SavedBIrBlocks { blocks: BIrBlocks { blocks, pre_init: Vec::new() } };
    assert(p@.pre_init =~= Seq::empty());
    Ok(p)
}

impl ParseText for SavedBIrBlocks {
    open spec fn parses(s: Seq<char>, r: Result<Self, ParseError>) -> bool {
        match get_bir(s) {
            Ok(p) => r matches Ok(x) && x@ == p && bir_program_sideless(x.blocks.blocks@),
            Err(e) => r matches Err(x) && x@ == e,
        }
    }

    fn parse_text(s: &str) -> (r: Result<Self, ParseError>) {
        parse_saved_bir_blocks(s)
    }
}

// ---------------------------------------------------------------------------
// Reading back
// ---------------------------------------------------------------------------

/// The words of lines are words.
pub proof fn lemma_bir_line_words()
    ensures
        is_name("begin_block"@),
        is_name("end_block"@),
        is_name("params"@),
        is_name("boolar"@),
        "begin_block"@[0] == 'b',
        "end_block"@[0] == 'e',
        "params"@[0] == 'p',
        "boolar"@[0] == 'b',
        "boolar:"@ == "boolar"@ + seq![':'],
{
    reveal_strlit("begin_block");
    reveal_strlit("end_block");
    reveal_strlit("params");
    reveal_strlit("boolar");
    reveal_strlit("boolar:");
    assert("boolar:"@ =~= "boolar"@ + seq![':']);
}

/// The end of a block is read back.
#[verifier::rlimit(60)]
proof fn lemma_bir_end(l: LexView, ss: Seq<BIrStmtView>, e: BIrTermView, k: Seq<char>)
    requires
        at_blank(k),
        l.skipped().rest == bir_term_text(e) + (seq!['\n'] + ("end_block"@ + k)),
    ensures
        reads(get_bir_body(l, ss), (ss, Some(e)), k),
{
    lemma_bir_line_words();
    let end = "end_block"@ + k;
    let ek = seq!['\n'] + end;
    let s = l.skipped();
    assert(end[0] == 'e');
    assert(ek[0] == '\n');
    lemma_bir_term_split(e, ek);
    let tail = bir_term_tail(e, ek);
    let word = bir_term_word(e);
    lemma_bir_term(LexView { rest: tail, taken: 0, line: 0, col: 0 }, e, ek);
    assert((word + tail)[0] == word[0]);
    lemma_at_token(s);
    lemma_blank_ends(tail);
    lemma_word(s, word, tail);
    let l1 = get_ident(s)->Ok_0.1;
    assert(word != "end_block"@);
    lemma_bir_term(l1, e, ek);
    let l2 = get_bir_term(word, l1)->Ok_0.1;
    lemma_past_blank(l2, '\n', end);
    lemma_blank_ends(k);
    lemma_word(l2, "end_block"@, k);
}

/// A statement of a block is read back.
#[verifier::rlimit(60)]
proof fn lemma_bir_step(
    l: LexView,
    v: u32,
    so_far: Seq<BIrStmtView>,
    s: BIrStmtView,
    more: Seq<char>,
) -> (m: LexView)
    requires
        bir_stmt_writable(s),
        at_token(more),
        l.skipped().rest == var_text(IRVarId(v)) + (seq![' ', '=', ' '] + (bir_stmt_text(s) + (
        seq!['\n'] + more))),
    ensures
        m.skipped().rest == more,
        get_bir_body(l, so_far) == get_bir_body(m, so_far.push(s)),
{
    let x = l.skipped();
    let sk = seq!['\n'] + more;
    let c = bir_stmt_text(s) + sk;
    let b = seq![' ', '=', ' '] + c;
    assert(sk[0] == '\n');
    lemma_bir_stmt_split(s, sk);
    let tail = bir_stmt_tail(s, sk);
    let word = bir_stmt_word(s);
    lemma_bir_stmt(LexView { rest: tail, taken: 0, line: 0, col: 0 }, s, sk);
    assert(x.rest[0] == 'v');
    lemma_at_token(x);
    let eq = seq!['='] + (seq![' '] + c);
    assert(b =~= seq![' '] + eq);
    assert(b[0] == ' ');
    lemma_item(x, v, true, b);
    assert(get_item(x, true) == get_var(x));
    let l1 = get_var(x)->Ok_0.1;
    assert(eq[0] == '=');
    lemma_past_blank(l1, ' ', eq);
    lemma_char(l1, '=', seq![' '] + c);
    let l2 = get_char(l1, '=')->Ok_0.1;
    assert(c == word + tail);
    assert(c[0] == word[0]);
    lemma_past_blank(l2, ' ', c);
    lemma_blank_ends(tail);
    lemma_word(l2, word, tail);
    let l3 = get_ident(l2)->Ok_0.1;
    lemma_bir_stmt(l3, s, sk);
    let l4 = get_bir_stmt(word, l3)->Ok_0.1;
    lemma_past_blank(l4, '\n', more);
    l4
}

proof fn lemma_bir_more_starts(
    base: nat,
    ss: Seq<BIrStmtView>,
    e: BIrTermView,
    i: int,
    k: Seq<char>,
)
    requires
        0 <= i <= ss.len(),
    ensures
        at_token(bir_stmt_lines(base, ss, i) + (bir_term_text(e) + k)),
{
    let te = bir_term_text(e) + k;
    let more = bir_stmt_lines(base, ss, i) + te;
    if i < ss.len() {
        let v = var_text(IRVarId((base + i) as u32));
        assert(v[0] == 'v');
        assert(bir_stmt_lines(base, ss, i)[0] == 'v');
        assert(more[0] == 'v');
    } else {
        assert(more =~= te);
        lemma_bir_term_split(e, k);
        assert((bir_term_word(e) + bir_term_tail(e, k))[0] == bir_term_word(e)[0]);
    }
}

/// The statements and the end of a block are read back.
#[verifier::rlimit(60)]
proof fn lemma_bir_body(
    l: LexView,
    base: nat,
    ss: Seq<BIrStmtView>,
    e: BIrTermView,
    i: int,
    k: Seq<char>,
)
    requires
        0 <= i <= ss.len(),
        forall|j: int| 0 <= j < ss.len() ==> bir_stmt_writable(#[trigger] ss[j]),
        at_blank(k),
        l.skipped().rest == bir_stmt_lines(base, ss, i) + (bir_term_text(e) + (seq!['\n'] + (
        "end_block"@ + k))),
    ensures
        reads(get_bir_body(l, ss.take(i)), (ss, Some(e)), k),
    decreases ss.len() - i,
{
    let ek = seq!['\n'] + ("end_block"@ + k);
    let te = bir_term_text(e) + ek;
    if i == ss.len() {
        assert(l.skipped().rest =~= te);
        lemma_bir_end(l, ss, e, k);
        assert(ss.take(i) =~= ss);
    } else {
        let v = (base + i) as u32;
        let lines = bir_stmt_lines(base, ss, i + 1);
        let more = lines + te;
        lemma_bir_more_starts(base, ss, e, i + 1, ek);
        let nl = seq!['\n'];
        let txt = bir_stmt_text(ss[i]);
        let eq = seq![' ', '=', ' '];
        lemma_joined(var_text(IRVarId(v)), eq + (txt + (nl + lines)), te);
        lemma_joined(eq, txt + (nl + lines), te);
        lemma_joined(txt, nl + lines, te);
        lemma_joined(nl, lines, te);
        let m = lemma_bir_step(l, v, ss.take(i), ss[i], more);
        lemma_bir_body(m, base, ss, e, i + 1, k);
        assert(ss.take(i + 1) =~= ss.take(i).push(ss[i]));
    }
}

/// A block is read back.
#[verifier::rlimit(60)]
pub proof fn lemma_bir_block(l: LexView, n: nat, b: BIrBlockView, k: Seq<char>)
    requires
        bir_block_writable(b),
        n <= u32::MAX,
        l.rest == bir_block_text(n, b) + k,
    ensures
        get_u32(l) is Ok,
        reads(get_bir_block(get_u32(l)->Ok_0.1), b, seq!['\n'] + k),
        at_blank(l.rest),
{
    lemma_bir_line_words();
    let nl = seq!['\n'];
    let a = spaced(dec(n));
    let t = spaced(dec(b.params as nat));
    let end = "end_block"@ + (nl + k);
    let te = bir_term_text(b.terminator) + (nl + end);
    let body = bir_stmt_lines(b.params as nat, b.stmts, 0) + te;
    let k3 = nl + body;
    let k2 = t + k3;
    let p = "params"@ + k2;
    let k1 = nl + p;
    let lines = bir_stmt_lines(b.params as nat, b.stmts, 0);
    let tt = bir_term_text(b.terminator);
    let ee = "end_block"@;
    let pp = "params"@;
    lemma_joined(a, nl + (pp + (t + (nl + (lines + (tt + (nl + (ee + nl))))))), k);
    lemma_joined(nl, pp + (t + (nl + (lines + (tt + (nl + (ee + nl)))))), k);
    lemma_joined(pp, t + (nl + (lines + (tt + (nl + (ee + nl))))), k);
    lemma_joined(t, nl + (lines + (tt + (nl + (ee + nl)))), k);
    lemma_joined(nl, lines + (tt + (nl + (ee + nl))), k);
    lemma_joined(lines, tt + (nl + (ee + nl)), k);
    lemma_joined(tt, nl + (ee + nl), k);
    lemma_joined(nl, ee + nl, k);
    lemma_joined(ee, nl, k);
    assert(k1[0] == '\n');
    lemma_spaced_number(l, n, u32::MAX as nat, k1);
    let l1 = get_u32(l)->Ok_0.1;
    assert(p[0] == 'p');
    lemma_past_blank(l1, '\n', p);
    lemma_field_blank(Seq::empty(), dec(b.params as nat), k3);
    lemma_blank_ends(k2);
    lemma_word(l1, "params"@, k2);
    let l2 = get_ident(l1)->Ok_0.1;
    assert(k3[0] == '\n');
    lemma_spaced_number(l2, b.params as nat, u32::MAX as nat, k3);
    let l3 = get_u32(l2)->Ok_0.1;
    lemma_bir_more_starts(b.params as nat, b.stmts, b.terminator, 0, nl + end);
    lemma_past_blank(l3, '\n', body);
    assert((nl + k)[0] == '\n');
    lemma_bir_body(l3, b.params as nat, b.stmts, b.terminator, 0, nl + k);
    assert(b.stmts.take(0) =~= Seq::empty());
}

pub proof fn lemma_bir_blocks_start(bs: Seq<BIrBlockView>, i: int)
    ensures
        at_token(bir_block_lines(bs, i)),
{
    lemma_bir_line_words();
    if i < bs.len() {
        assert(bir_block_lines(bs, i)[0] == "begin_block"@[0]);
    }
}

#[verifier::rlimit(60)]
proof fn lemma_bir_blocks(l: LexView, bs: Seq<BIrBlockView>, i: int)
    requires
        0 <= i <= bs.len() <= 0x1_0000_0000,
        forall|j: int| 0 <= j < bs.len() ==> bir_block_writable(#[trigger] bs[j]),
        l.skipped().rest == bir_block_lines(bs, i),
    ensures
        get_bir_blocks(l, bs.take(i)) == Ok::<Seq<BIrBlockView>, ErrorView>(bs),
    decreases bs.len() - i,
{
    lemma_bir_line_words();
    if i == bs.len() {
        assert(bs.take(i) =~= bs);
    } else {
        let more = bir_block_lines(bs, i + 1);
        let text = bir_block_text(i as nat, bs[i]);
        let tail = text + more;
        assert(at_blank(tail)) by {
            assert(text[0] == ' ');
            assert(tail[0] == ' ');
        }
        let s = l.skipped();
        assert(s.rest[0] == 'b');
        lemma_at_token(s);
        lemma_blank_ends(tail);
        lemma_word(s, "begin_block"@, tail);
        let m = get_ident(s)->Ok_0.1;
        lemma_bir_block(m, i as nat, bs[i], more);
        let m1 = get_u32(m)->Ok_0.1;
        let m2 = get_bir_block(m1)->Ok_0.1;
        lemma_bir_blocks_start(bs, i + 1);
        lemma_past_blank(m2, '\n', more);
        assert(bs.take(i + 1) =~= bs.take(i).push(bs[i]));
        lemma_bir_blocks(m2, bs, i + 1);
    }
}

/// The version line and the section line are read back.
pub proof fn lemma_bir_section(k: Seq<char>)
    ensures
        get_bir_section("volar-ir v1"@ + (seq!['\n'] + ("boolar:"@ + k))) matches Ok(l)
            && l.rest == k,
{
    lemma_bir_line_words();
    let c = seq![':'] + k;
    let b = "boolar:"@ + k;
    lemma_joined("boolar"@, seq![':'], k);
    lemma_header(b);
    let l = past_header("volar-ir v1"@ + (seq!['\n'] + b));
    assert(b[0] == 'b');
    lemma_past_blank(l, '\n', b);
    assert(c[0] == ':');
    lemma_word(l, "boolar"@, c);
    let l1 = get_ident(l)->Ok_0.1;
    lemma_at_token(l1);
    lemma_char(l1, ':', k);
}

/// What was written of a boolean program is read back as the same program.
pub proof fn law_bir_round_trip(p: BIrBlocksView)
    requires
        bir_writable(p),
    ensures
        get_bir(bir_text(p)) == Ok::<BIrBlocksView, ErrorView>(p),
{
    let k = seq!['\n'] + bir_block_lines(p.blocks, 0);
    lemma_bir_section(k);
    let l = get_bir_section(bir_text(p))->Ok_0;
    lemma_bir_blocks_start(p.blocks, 0);
    lemma_past_blank(l, '\n', bir_block_lines(p.blocks, 0));
    lemma_bir_blocks(l, p.blocks, 0);
    assert(p.blocks.take(0) =~= Seq::empty());
    assert(p.pre_init =~= Seq::empty());
}

} // verus!
