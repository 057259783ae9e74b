//! How blocks end, as text.

use vstd::prelude::*;

use crate::common::Constant;
use crate::ir::{
    case_views, constant_order, insert_case, lemma_constant_order, BranchView, IRBlockTargetId,
    IRBranchTarget, IRTerminator, IRVarId, TermView,
};
use crate::sorted::{assoc_insert, assoc_sorted, lemma_assoc_insert_last};
use crate::text::error::ParseError;
use crate::text::fields::{
    constant_text, field, get_constant, get_target, get_target_field, get_var_field,
    get_vars_field, lemma_blank_ends, lemma_field_blank, lemma_fields_shrink,
    lemma_spaced, lemma_spaced_constant, lemma_spaced_target, lemma_target_field,
    lemma_values_shrink, lemma_var_field, lemma_vars_field, put_spaced_constant,
    put_spaced_target, put_target_field, put_var_field, put_vars_field, read_constant, read_target,
    read_target_field, read_var_field, read_vars_field, spaced, target_text, var_text, vars_text,
};
use crate::text::ir_stmt::{at_line_end, lemma_line_end, reads_line};
use crate::text::lexer::{
    advanced_by, get_ident, get_str, gives_view, group_shrinks, is_word, LexView, Lexer, Parsed,
};
use crate::text::pieces::{
    at_blank, is_name, lemma_at_token, lemma_joined, lemma_past_blank, lemma_word, reads,
};

verus! {

/// The cases of a jump table from case `i` on.
pub open spec fn cases_text(cs: Seq<(Constant, BranchView)>, i: int) -> Seq<char>
    decreases cs.len() - i,
{
    if i >= cs.len() {
        Seq::empty()
    } else {
        spaced("case"@) + (spaced(constant_text(cs[i].0)) + (spaced("->"@) + (spaced(
            target_text(cs[i].1.dest),
        ) + (field("args"@, vars_text(cs[i].1.args)) + cases_text(cs, i + 1)))))
    }
}

/// How a block ends. Hints are not written.
#[verifier::opaque]
pub open spec fn term_text(t: TermView) -> Seq<char> {
    match t {
        TermView::Jmp { target } => "jmp"@ + spaced(target_text(target.dest)) + field(
            "args"@,
            vars_text(target.args),
        ),
        TermView::JumpCond { condition, then_target, else_target } => "jmp_cond"@ + field(
            "cond"@,
            var_text(condition),
        ) + field("then"@, target_text(then_target.dest)) + field(
            "then_args"@,
            vars_text(then_target.args),
        ) + field("else"@, target_text(else_target.dest)) + field(
            "else_args"@,
            vars_text(else_target.args),
        ),
        TermView::JumpTable { index, cases } => "jmp_table"@ + field("index"@, var_text(index))
            + cases_text(cases, 0),
    }
}

/// Whether an end can be read back: there are no hints, and cases are in order.
#[verifier::opaque]
pub open spec fn term_writable(t: TermView) -> bool {
    match t {
        TermView::Jmp { target } => target.reentry is None,
        TermView::JumpCond { then_target, else_target, .. } => then_target.reentry is None
            && else_target.reentry is None,
        TermView::JumpTable { cases, .. } => {
            &&& assoc_sorted(cases, constant_order())
            &&& forall|i: int| 0 <= i < cases.len() ==> (#[trigger] cases[i]).1.reentry is None
        },
    }
}

fn put_cases(w: &mut String, cases: &Vec<(Constant, IRBranchTarget)>)
    ensures
        final(w)@ == old(w)@ + cases_text(case_views(cases@), 0),
{
    let ghost cs = case_views(cases@);
    let ghost before = w@;
    let mut i: usize = 0;
    while i < cases.len()
        invariant
            i <= cases@.len(),
            cs == case_views(cases@),
            w@ + cases_text(cs, i as int) == before + cases_text(cs, 0),
        decreases cases@.len() - i,
    {
        assert(cs[i as int] == (cases@[i as int].0, cases@[i as int].1@));
        let ghost sofar = w@;
        let ghost more = cases_text(cs, i + 1);
        w.push_str(" case");
        put_spaced_constant(w, &cases[i].0);
        w.push_str(" ->");
        put_spaced_target(w, &cases[i].1.dest);
        put_vars_field(w, "args", &cases[i].1.args);
        proof {
            reveal_strlit(" case");
            reveal_strlit("case");
            reveal_strlit(" ->");
            reveal_strlit("->");
            assert(" case"@ =~= spaced("case"@));
            assert(" ->"@ =~= spaced("->"@));
            let a = spaced("case"@);
            let b = spaced(constant_text(cs[i as int].0));
            let c = spaced("->"@);
            let d = spaced(target_text(cs[i as int].1.dest));
            let e = field("args"@, vars_text(cs[i as int].1.args));
            assert(w@ == sofar + a + b + c + d + e);
            lemma_joined(sofar + a + b + c + d, e, more);
            lemma_joined(sofar + a + b + c, d, e + more);
            lemma_joined(sofar + a + b, c, d + (e + more));
            lemma_joined(sofar + a, b, c + (d + (e + more)));
            lemma_joined(sofar, a, b + (c + (d + (e + more))));
        }
        i += 1;
    }
    assert(w@ + cases_text(cs, i as int) =~= w@);
}

/// Append how a block ends.
pub fn write_ir_terminator(w: &mut String, term: &IRTerminator)
    ensures
        final(w)@ == old(w)@ + term_text(term@),
{
    reveal(term_text);
    let ghost b = w@;
    match term {
        IRTerminator::Jmp { target } => {
            w.push_str("jmp");
            put_spaced_target(w, &target.dest);
            put_vars_field(w, "args", &target.args);
            proof {
                let f1 = spaced(target_text(target.dest));
                let f2 = field("args"@, vars_text(target.args@));
                lemma_joined(b, "jmp"@, f1);
                lemma_joined(b, "jmp"@ + f1, f2);
            }
        },
        IRTerminator::JumpCond { condition, then_target, else_target } => {
            w.push_str("jmp_cond");
            put_var_field(w, "cond", *condition);
            put_target_field(w, "then", then_target.dest);
            put_vars_field(w, "then_args", &then_target.args);
            put_target_field(w, "else", else_target.dest);
            put_vars_field(w, "else_args", &else_target.args);
            proof {
                let f1 = field("cond"@, var_text(*condition));
                let f2 = field("then"@, target_text(then_target.dest));
                let f3 = field("then_args"@, vars_text(then_target.args@));
                let f4 = field("else"@, target_text(else_target.dest));
                let f5 = field("else_args"@, vars_text(else_target.args@));
                lemma_joined(b, "jmp_cond"@, f1);
                lemma_joined(b, "jmp_cond"@ + f1, f2);
                lemma_joined(b, "jmp_cond"@ + f1 + f2, f3);
                lemma_joined(b, "jmp_cond"@ + f1 + f2 + f3, f4);
                lemma_joined(b, "jmp_cond"@ + f1 + f2 + f3 + f4, f5);
            }
        },
        IRTerminator::JumpTable { index, cases } => {
            w.push_str("jmp_table");
            put_var_field(w, "index", *index);
            put_cases(w, cases);
            proof {
                let f1 = field("index"@, var_text(*index));
                lemma_joined(b, "jmp_table"@, f1);
                lemma_joined(b, "jmp_table"@ + f1, cases_text(case_views(cases@), 0));
            }
        },
    }
}

// ---------------------------------------------------------------------------
// Reading
// ---------------------------------------------------------------------------

/// A branch without a hint.
pub open spec fn branch(dest: IRBlockTargetId, args: Seq<IRVarId>) -> BranchView {
    BranchView { dest, args, reentry: None }
}

/// One case of a jump table, behind its word.
pub open spec fn get_case(l: LexView) -> Parsed<(Constant, BranchView)> {
    match get_constant(l) {
        Err(e) => Err(e),
        Ok((c, l)) => match get_str(l, "->"@) {
            Err(e) => Err(e),
            Ok((_, l)) => match get_target(l) {
                Err(e) => Err(e),
                Ok((dest, l)) => match get_vars_field(l, "args"@) {
                    Err(e) => Err(e),
                    Ok((args, l)) => Ok(((c, branch(dest, args)), l)),
                },
            },
        },
    }
}

pub proof fn lemma_case_shrinks(l: LexView)
    ensures
        get_case(l) matches Ok((_, m)) ==> m.rest.len() < l.rest.len(),
{
    broadcast use {group_shrinks, lemma_values_shrink, lemma_fields_shrink};

}

/// The cases of a jump table.
pub open spec fn get_cases(l: LexView, so_far: Seq<(Constant, BranchView)>) -> Parsed<
    Seq<(Constant, BranchView)>,
>
    decreases l.rest.len(),
{
    let l = l.skipped();
    if !l.at('c') {
        Ok((so_far, l))
    } else {
        match get_ident(l) {
            Err(e) => Err(e),
            Ok((kw, l1)) => if kw != "case"@ {
                Ok((so_far, l1))
            } else {
                match get_case(l1) {
                    Err(e) => Err(e),
                    Ok((c, l2)) => {
                        proof {
                            broadcast use group_shrinks;

                            lemma_case_shrinks(l1);
                        }
                        get_cases(l2, assoc_insert(so_far, c.0, c.1, constant_order()))
                    },
                }
            },
        }
    }
}

/// A jump.
pub open spec fn get_jmp(l: LexView) -> Parsed<TermView> {
    match get_target(l) {
        Err(e) => Err(e),
        Ok((dest, l)) => match get_vars_field(l, "args"@) {
            Err(e) => Err(e),
            Ok((args, l)) => Ok((TermView::Jmp { target: branch(dest, args) }, l)),
        },
    }
}

/// A jump on a condition.
pub open spec fn get_jmp_cond(l: LexView) -> Parsed<TermView> {
    match get_var_field(l, "cond"@) {
        Err(e) => Err(e),
        Ok((condition, l)) => match get_target_field(l, "then"@) {
            Err(e) => Err(e),
            Ok((d1, l)) => match get_vars_field(l, "then_args"@) {
                Err(e) => Err(e),
                Ok((a1, l)) => match get_target_field(l, "else"@) {
                    Err(e) => Err(e),
                    Ok((d2, l)) => match get_vars_field(l, "else_args"@) {
                        Err(e) => Err(e),
                        Ok((a2, l)) => Ok(
                            (
                                TermView::JumpCond {
                                    condition,
                                    then_target: branch(d1, a1),
                                    else_target: branch(d2, a2),
                                },
                                l,
                            ),
                        ),
                    },
                },
            },
        },
    }
}

/// A jump by a table.
pub open spec fn get_jmp_table(l: LexView) -> Parsed<TermView> {
    match get_var_field(l, "index"@) {
        Err(e) => Err(e),
        Ok((index, l)) => match get_cases(l, Seq::empty()) {
            Err(e) => Err(e),
            Ok((cases, l)) => Ok((TermView::JumpTable { index, cases }, l)),
        },
    }
}

/// How a block ends, behind its word.
#[verifier::opaque]
pub open spec fn get_term(kw: Seq<char>, l: LexView) -> Parsed<TermView> {
    if kw == "jmp"@ {
        get_jmp(l)
    } else if kw == "jmp_cond"@ {
        get_jmp_cond(l)
    } else if kw == "jmp_table"@ {
        get_jmp_table(l)
    } else {
        Err(l.error("unknown terminator '"@ + kw + "'"@))
    }
}

proof fn lemma_cases_shrink(l: LexView, so_far: Seq<(Constant, BranchView)>)
    ensures
        get_cases(l, so_far) matches Ok((_, m)) ==> m.rest.len() <= l.rest.len(),
    decreases l.rest.len(),
{
    broadcast use group_shrinks;

    let l = l.skipped();
    if l.at('c') {
        match get_ident(l) {
            Err(_) => {},
            Ok((kw, l1)) => if kw == "case"@ {
                lemma_case_shrinks(l1);
                match get_case(l1) {
                    Err(_) => {},
                    Ok((c, l2)) => {
                        lemma_cases_shrink(l2, assoc_insert(so_far, c.0, c.1, constant_order()));
                    },
                }
            },
        }
    }
}

/// An end ends no further on than the text is long.
pub proof fn lemma_term_shrinks(kw: Seq<char>, l: LexView)
    ensures
        get_term(kw, l) matches Ok((_, m)) ==> m.rest.len() <= l.rest.len(),
{
    broadcast use {group_shrinks, lemma_values_shrink, lemma_fields_shrink};

    reveal(get_term);

    assert forall|x: LexView| #[trigger] get_cases(x, Seq::empty()) matches Ok((_, m))
        ==> m.rest.len() <= x.rest.len() by {
        lemma_cases_shrink(x, Seq::empty());
    }
}

fn read_case(lex: &mut Lexer) -> (r: Result<(Constant, IRBranchTarget), ParseError>)
    ensures
        match get_case(old(lex)@) {
            Ok((c, m)) => r matches Ok(x) && (x.0, x.1@) == c && final(lex)@ == m,
            Err(e) => r matches Err(x) && x@ == e,
        },
{
    let c: Constant = match read_constant(lex) {
        Ok(x) => x,
        Err(e) => {
            return Err(e);
        },
    };
    match lex.expect_str("->") {
        Ok(_) => {},
        Err(e) => {
            return Err(e);
        },
    }
    let dest: IRBlockTargetId = match read_target(lex) {
        Ok(x) => x,
        Err(e) => {
            return Err(e);
        },
    };
    match read_vars_field(lex, "args") {
        Ok(args) => Ok((c, IRBranchTarget::new(dest, args))),
        Err(e) => Err(e),
    }
}

fn read_cases(lex: &mut Lexer) -> (r: Result<Vec<(Constant, IRBranchTarget)>, ParseError>)
    ensures
        match get_cases(old(lex)@, Seq::empty()) {
            Ok((c, m)) => r matches Ok(x) && case_views(x@) == c && final(lex)@ == m,
            Err(e) => r matches Err(x) && x@ == e,
        },
{
    let ghost whole = get_cases(lex@, Seq::empty());
    let mut cases: Vec<(Constant, IRBranchTarget)> = Vec::new();
    assert(case_views(cases@) =~= Seq::empty());
    loop
        invariant
            whole == get_cases(old(lex)@, Seq::empty()),
            whole == get_cases(lex@, case_views(cases@)),
        decreases lex@.rest.len(),
    {
        broadcast use group_shrinks;

        if !lex.peek_is('c') {
            return Ok(cases);
        }
        let kw: String = match lex.read_ident() {
            Ok(kw) => kw,
            Err(e) => {
                return Err(e);
            },
        };
        if !is_word(&kw, "case") {
            return Ok(cases);
        }
        proof {
            lemma_case_shrinks(lex@);
        }
        match read_case(lex) {
            Ok((c, target)) => {
                insert_case(&mut cases, c, target);
            },
            Err(e) => {
                return Err(e);
            },
        }
    }
}

fn read_jmp(lex: &mut Lexer) -> (r: Result<IRTerminator, ParseError>)
    ensures
        gives_view(r, final(lex)@, get_jmp(old(lex)@)),
{
    let dest: IRBlockTargetId = match read_target(lex) {
        Ok(x) => x,
        Err(e) => {
            return Err(e);
        },
    };
    match read_vars_field(lex, "args") {
        Ok(args) => Ok(IRTerminator::Jmp { target: IRBranchTarget::new(dest, args) }),
        Err(e) => Err(e),
    }
}

fn read_jmp_cond(lex: &mut Lexer) -> (r: Result<IRTerminator, ParseError>)
    ensures
        gives_view(r, final(lex)@, get_jmp_cond(old(lex)@)),
{
    let condition: IRVarId = match read_var_field(lex, "cond") {
        Ok(x) => x,
        Err(e) => {
            return Err(e);
        },
    };
    let d1: IRBlockTargetId = match read_target_field(lex, "then") {
        Ok(x) => x,
        Err(e) => {
            return Err(e);
        },
    };
    let a1: Vec<IRVarId> = match read_vars_field(lex, "then_args") {
        Ok(x) => x,
        Err(e) => {
            return Err(e);
        },
    };
    let d2: IRBlockTargetId = match read_target_field(lex, "else") {
        Ok(x) => x,
        Err(e) => {
            return Err(e);
        },
    };
    match read_vars_field(lex, "else_args") {
        Ok(a2) => Ok(
            IRTerminator::JumpCond {
                condition,
                then_target: IRBranchTarget::new(d1, a1),
                else_target: IRBranchTarget::new(d2, a2),
            },
        ),
        Err(e) => Err(e),
    }
}

fn read_jmp_table(lex: &mut Lexer) -> (r: Result<IRTerminator, ParseError>)
    ensures
        gives_view(r, final(lex)@, get_jmp_table(old(lex)@)),
{
    let index: IRVarId = match read_var_field(lex, "index") {
        Ok(x) => x,
        Err(e) => {
            return Err(e);
        },
    };
    match read_cases(lex) {
        Ok(cases) => Ok(IRTerminator::JumpTable { index, cases }),
        Err(e) => Err(e),
    }
}

/// Read how a block ends, behind its word.
pub fn parse_ir_terminator(kw: &String, lex: &mut Lexer) -> (r: Result<IRTerminator, ParseError>)
    ensures
        gives_view(r, final(lex)@, get_term(kw@, old(lex)@)),
{
    reveal(get_term);
    if is_word(kw, "jmp") {
        read_jmp(lex)
    } else if is_word(kw, "jmp_cond") {
        read_jmp_cond(lex)
    } else if is_word(kw, "jmp_table") {
        read_jmp_table(lex)
    } else {
        let at = lex.pos();
        let mut got: String = String::new();
        got.push_str("unknown terminator '");
        got.push_str(kw.as_str());
        got.push_str("'");
        assert(got@ =~= "unknown terminator '"@ + kw@ + "'"@);
        Err(ParseError::UnexpectedToken { line: at.line, col: at.col, got })
    }
}

// ---------------------------------------------------------------------------
// Reading back
// ---------------------------------------------------------------------------

/// An arrow is read back.
pub proof fn lemma_arrow(l: LexView, k: Seq<char>)
    requires
        l.skipped().rest == "->"@ + k,
    ensures
        reads(get_str(l, "->"@), (), k),
{
    reveal_strlit("->");
    let m = l.skipped();
    let a = "->"@;
    assert(a.is_prefix_of(m.rest)) by {
        assert(m.rest.take(2) =~= a);
    }
    reveal_with_fuel(advanced_by, 3);
    assert(m.rest.drop_first().drop_first() =~= k);
}

/// The words and keys of ends are words, and no two words are the same.
pub proof fn lemma_term_words()
    ensures
        is_name("jmp"@),
        is_name("jmp_cond"@),
        is_name("jmp_table"@),
        is_name("case"@),
        is_name("args"@),
        is_name("cond"@),
        is_name("then"@),
        is_name("then_args"@),
        is_name("else"@),
        is_name("else_args"@),
        is_name("index"@),
        "jmp_cond"@ != "jmp"@,
        "jmp_table"@ != "jmp"@,
        "jmp_table"@ != "jmp_cond"@,
        "case"@[0] == 'c',
        "jmp"@[0] == 'j',
        "jmp_cond"@[0] == 'j',
        "jmp_table"@[0] == 'j',
{
    reveal_strlit("jmp");
    reveal_strlit("jmp_cond");
    reveal_strlit("jmp_table");
    reveal_strlit("case");
    reveal_strlit("args");
    reveal_strlit("cond");
    reveal_strlit("then");
    reveal_strlit("then_args");
    reveal_strlit("else");
    reveal_strlit("else_args");
    reveal_strlit("index");
    assert("jmp"@.len() == 3);
    assert("jmp_cond"@.len() == 8);
    assert("jmp_table"@.len() == 9);
}

proof fn lemma_cases(
    l: LexView,
    cs: Seq<(Constant, BranchView)>,
    i: int,
    k: Seq<char>,
    t: Seq<char>,
)
    requires
        0 <= i <= cs.len(),
        assoc_sorted(cs, constant_order()),
        forall|j: int| 0 <= j < cs.len() ==> (#[trigger] cs[j]).1.reentry is None,
        at_line_end(k, t),
        l.rest == cases_text(cs, i) + k,
    ensures
        reads_line(get_cases(l, cs.take(i)), cs, t),
        at_blank(l.rest),
    decreases cs.len() - i,
{
    if i == cs.len() {
        assert(l.rest =~= k);
        lemma_past_blank(l, '\n', t);
        lemma_at_token(l.skipped());
        assert(cs.take(i) =~= cs);
    } else {
        lemma_term_words();
        let c = cs[i].0;
        let dest = cs[i].1.dest;
        let args = cs[i].1.args;
        let k5 = cases_text(cs, i + 1) + k;
        let k4 = field("args"@, vars_text(args)) + k5;
        let k3 = spaced(target_text(dest)) + k4;
        let k2 = spaced("->"@) + k3;
        let k1 = spaced(constant_text(c)) + k2;
        assert(l.rest == spaced("case"@) + k1) by {
            broadcast use lemma_joined;

        }
        assert(at_blank(k5)) by {
            if i + 1 < cs.len() {
                broadcast use lemma_joined;

                lemma_field_blank(
                    Seq::empty(),
                    "case"@,
                    spaced(constant_text(cs[i + 1].0)) + (spaced("->"@) + (spaced(
                        target_text(cs[i + 1].1.dest),
                    ) + (field("args"@, vars_text(cs[i + 1].1.args)) + (cases_text(cs, i + 2)
                        + k)))),
                );
            } else {
                assert(k5 =~= k);
            }
        }
        lemma_field_blank("args"@, vars_text(args), k5);
        lemma_field_blank(Seq::empty(), target_text(dest), k4);
        lemma_field_blank(Seq::empty(), "->"@, k3);
        lemma_field_blank(Seq::empty(), constant_text(c), k2);
        lemma_field_blank(Seq::empty(), "case"@, k1);
        assert(("case"@ + k1)[0] == 'c');
        lemma_spaced(l, "case"@, k1);
        let s = l.skipped();
        lemma_at_token(s);
        lemma_blank_ends(k1);
        lemma_word(s, "case"@, k1);
        let l1 = get_ident(s)->Ok_0.1;
        lemma_spaced_constant(l1, c, k2);
        let l2 = get_constant(l1)->Ok_0.1;
        assert(("->"@ + k3)[0] == '-') by {
            reveal_strlit("->");
        }
        lemma_spaced(l2, "->"@, k3);
        lemma_arrow(l2, k3);
        let l3 = get_str(l2, "->"@)->Ok_0.1;
        lemma_spaced_target(l3, dest, k4);
        let l4 = get_target(l3)->Ok_0.1;
        lemma_vars_field(l4, "args"@, args, k5);
        let l5 = get_vars_field(l4, "args"@)->Ok_0.1;
        lemma_constant_order();
        assert forall|j: int| 0 <= j < cs.take(i).len() implies constant_order()(
            (#[trigger] cs.take(i)[j]).0,
            c,
        ) by {
            assert(cs.take(i)[j] == cs[j]);
        }
        lemma_assoc_insert_last(cs.take(i), c, cs[i].1, constant_order());
        assert(cs[i].1 == branch(dest, args));
        assert(cs.take(i + 1) =~= cs.take(i).push((c, cs[i].1)));
        lemma_cases(l5, cs, i + 1, k, t);
    }
}

/// The word of an end.
#[verifier::opaque]
pub open spec fn term_word(t: TermView) -> Seq<char> {
    match t {
        TermView::Jmp { .. } => "jmp"@,
        TermView::JumpCond { .. } => "jmp_cond"@,
        TermView::JumpTable { .. } => "jmp_table"@,
    }
}

/// What stands behind the word of an end, with `k` behind it.
#[verifier::opaque]
pub open spec fn term_tail(t: TermView, k: Seq<char>) -> Seq<char> {
    match t {
        TermView::Jmp { target } => spaced(target_text(target.dest)) + (field(
            "args"@,
            vars_text(target.args),
        ) + k),
        TermView::JumpCond { condition, then_target, else_target } => field(
            "cond"@,
            var_text(condition),
        ) + (field("then"@, target_text(then_target.dest)) + (field(
            "then_args"@,
            vars_text(then_target.args),
        ) + (field("else"@, target_text(else_target.dest)) + (field(
            "else_args"@,
            vars_text(else_target.args),
        ) + k)))),
        TermView::JumpTable { index, cases } => field("index"@, var_text(index)) + (cases_text(
            cases,
            0,
        ) + k),
    }
}

/// An end is its word and what stands behind it.
pub proof fn lemma_term_split(t: TermView, k: Seq<char>)
    ensures
        term_text(t) + k == term_word(t) + term_tail(t, k),
        at_blank(term_tail(t, k)),
{
    broadcast use lemma_joined;

    reveal(term_text);
    reveal(term_tail);
    reveal(term_word);

    match t {
        TermView::Jmp { target } => {
            lemma_field_blank(
                Seq::empty(),
                target_text(target.dest),
                field("args"@, vars_text(target.args)) + k,
            );
        },
        TermView::JumpCond { condition, then_target, else_target } => {
            lemma_field_blank(
                "cond"@,
                var_text(condition),
                field("then"@, target_text(then_target.dest)) + (field(
                    "then_args"@,
                    vars_text(then_target.args),
                ) + (field("else"@, target_text(else_target.dest)) + (field(
                    "else_args"@,
                    vars_text(else_target.args),
                ) + k))),
            );
        },
        TermView::JumpTable { index, cases } => {
            lemma_field_blank("index"@, var_text(index), cases_text(cases, 0) + k);
        },
    }
}

proof fn lemma_read_jmp(
    l: LexView,
    dest: IRBlockTargetId,
    args: Seq<IRVarId>,
    k: Seq<char>,
    t: Seq<char>,
)
    requires
        at_line_end(k, t),
        l.rest == spaced(target_text(dest)) + (field("args"@, vars_text(args)) + k),
    ensures
        reads_line(get_jmp(l), TermView::Jmp { target: branch(dest, args) }, t),
{
    lemma_term_words();
    let k1 = field("args"@, vars_text(args)) + k;
    lemma_field_blank("args"@, vars_text(args), k);
    lemma_spaced_target(l, dest, k1);
    let l1 = get_target(l)->Ok_0.1;
    lemma_vars_field(l1, "args"@, args, k);
    lemma_line_end(get_jmp(l), TermView::Jmp { target: branch(dest, args) }, k, t);
}

proof fn lemma_read_jmp_cond(
    l: LexView,
    condition: IRVarId,
    d1: IRBlockTargetId,
    a1: Seq<IRVarId>,
    d2: IRBlockTargetId,
    a2: Seq<IRVarId>,
    k: Seq<char>,
    t: Seq<char>,
)
    requires
        at_line_end(k, t),
        l.rest == field("cond"@, var_text(condition)) + (field("then"@, target_text(d1)) + (field(
            "then_args"@,
            vars_text(a1),
        ) + (field("else"@, target_text(d2)) + (field("else_args"@, vars_text(a2)) + k)))),
    ensures
        reads_line(
            get_jmp_cond(l),
            TermView::JumpCond {
                condition,
                then_target: branch(d1, a1),
                else_target: branch(d2, a2),
            },
            t,
        ),
{
    lemma_term_words();
    let k4 = field("else_args"@, vars_text(a2)) + k;
    let k3 = field("else"@, target_text(d2)) + k4;
    let k2 = field("then_args"@, vars_text(a1)) + k3;
    let k1 = field("then"@, target_text(d1)) + k2;
    lemma_field_blank("else_args"@, vars_text(a2), k);
    lemma_field_blank("else"@, target_text(d2), k4);
    lemma_field_blank("then_args"@, vars_text(a1), k3);
    lemma_field_blank("then"@, target_text(d1), k2);
    lemma_var_field(l, "cond"@, condition, k1);
    let l1 = get_var_field(l, "cond"@)->Ok_0.1;
    lemma_target_field(l1, "then"@, d1, k2);
    let l2 = get_target_field(l1, "then"@)->Ok_0.1;
    lemma_vars_field(l2, "then_args"@, a1, k3);
    let l3 = get_vars_field(l2, "then_args"@)->Ok_0.1;
    lemma_target_field(l3, "else"@, d2, k4);
    let l4 = get_target_field(l3, "else"@)->Ok_0.1;
    lemma_vars_field(l4, "else_args"@, a2, k);
    lemma_line_end(
        get_jmp_cond(l),
        TermView::JumpCond {
            condition,
            then_target: branch(d1, a1),
            else_target: branch(d2, a2),
        },
        k,
        t,
    );
}

/// An end is read back.
pub proof fn lemma_term(l: LexView, v: TermView, k: Seq<char>, t: Seq<char>)
    requires
        term_writable(v),
        at_line_end(k, t),
        l.rest == term_tail(v, k),
    ensures
        is_name(term_word(v)),
        term_word(v)[0] == 'j',
        reads_line(get_term(term_word(v), l), v, t),
{
    reveal(term_tail);
    reveal(term_word);
    reveal(get_term);
    reveal(term_writable);
    lemma_term_words();
    match v {
        TermView::Jmp { target } => {
            lemma_read_jmp(l, target.dest, target.args, k, t);
            assert(target == branch(target.dest, target.args));
        },
        TermView::JumpCond { condition, then_target, else_target } => {
            lemma_read_jmp_cond(
                l,
                condition,
                then_target.dest,
                then_target.args,
                else_target.dest,
                else_target.args,
                k,
                t,
            );
            assert(then_target == branch(then_target.dest, then_target.args));
            assert(else_target == branch(else_target.dest, else_target.args));
        },
        TermView::JumpTable { index, cases } => {
            let k1 = cases_text(cases, 0) + k;
            let probe = LexView { rest: k1, taken: 0, line: 0, col: 0 };
            lemma_cases(probe, cases, 0, k, t);
            lemma_var_field(l, "index"@, index, k1);
            let l1 = get_var_field(l, "index"@)->Ok_0.1;
            lemma_cases(l1, cases, 0, k, t);
            assert(cases.take(0) =~= Seq::empty());
        },
    }
}

} // verus!
