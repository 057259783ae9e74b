//! The values, lines and documents of the text format, letter by letter.

use vstd::prelude::*;

use crate::boolar::{BIrBlockView, BIrBlocksView, BIrStmtView, LaneId};
use crate::common::{CallDeclView, Constant, IrType, IrTypeView, RngDeclView, StorageId, TypeId};
use crate::fmt::{dec, hex};
use crate::ir::{
    constant_order, vars_order, BranchView, IRBlockTargetId, IRBlockView, IRTypeId, IRVarId,
    PrimType, StmtView,
};
use crate::sorted::assoc_insert;
use crate::text::bir::{
    bir_block_lines, bir_block_text, bir_stmt_lines, bir_term_text, bir_text, get_bir,
    get_bir_block, get_bir_body,
};
use crate::text::bir_stmt::{bir_stmt_text, get_bir_stmt};
use crate::text::error::ErrorView;
use crate::text::fields::{
    constant_text, field, get_constant, get_constant_field, get_lane, get_lane_field, get_storage,
    get_storage_field, get_target, get_target_field, get_type, get_type_field, get_types,
    get_types_field, get_u64_field, get_usize_field, get_var_field, get_var_id, get_vars,
    get_vars_field, name_text, spaced, target_text, type_numbers, types_text, var_numbers, var_text,
    vars_text,
};
use crate::text::format_law::named;
use crate::text::ir::{get_entry, get_ir, ir_text, DocView, SavedIrView};
use crate::text::ir_doc::{
    block_lines, block_text, call_decl_text, call_lines, get_block, get_body, get_ir_type,
    ir_type_text, rng_decl_text, rng_lines, stmt_lines, type_lines,
};
use crate::text::ir_stmt::{bit_text, bits_text, coeffs_text, get_coeffs, get_stmt, stmt_text};
use crate::text::ir_term::{cases_text, get_case, get_cases, term_text};
use crate::text::lexer::{
    get_char, get_ident, get_key, get_list, get_u128, get_u32, get_u64, get_usize, get_var,
    line_len, LexView,
};
use crate::text::pieces::{escape, escaped, item_text, items_text, lemma_joined};
use crate::text::traits::{header_error, header_of, is_space, trimmed};

verus! {

// ---------------------------------------------------------------------------
// Values
// ---------------------------------------------------------------------------

proof fn lemma_items_push(s: Seq<u32>, n: u32, var: bool, wide: bool, i: int)
    requires
        0 <= i <= s.len(),
    ensures
        items_text(s.push(n), var, wide, i) == items_text(s, var, wide, i) + ((if s.len() == 0 {
            Seq::empty()
        } else if wide {
            seq![',', ' ']
        } else {
            seq![',']
        }) + item_text(n, var)),
    decreases s.len() - i,
{
    let t = s.push(n);
    let sep: Seq<char> = if s.len() == 0 {
        Seq::empty()
    } else if wide {
        seq![',', ' ']
    } else {
        seq![',']
    };
    if i == s.len() {
        assert(items_text(t, var, wide, i + 1) =~= Seq::empty());
        assert(items_text(s, var, wide, i) =~= Seq::empty());
        assert(t[i] == n);
        assert(items_text(t, var, wide, i) =~= sep + item_text(n, var));
        assert(items_text(s, var, wide, i) + (sep + item_text(n, var)) =~= sep + item_text(n, var));
    } else {
        lemma_items_push(s, n, var, wide, i + 1);
        assert(t[i] == s[i]);
        let first: Seq<char> = (if i == 0 {
            Seq::empty()
        } else if wide {
            seq![',', ' ']
        } else {
            seq![',']
        }) + item_text(s[i], var);
        lemma_joined(first, items_text(s, var, wide, i + 1), sep + item_text(n, var));
    }
}

/// A list of variables is in square brackets, with commas between them.
pub proof fn law_vars_written(s: Seq<IRVarId>, v: IRVarId)
    ensures
        vars_text(Seq::empty()) == "[]"@,
        vars_text(seq![v]) == "["@ + named(v) + "]"@,
        s.len() > 0 ==> vars_text(s.push(v)) == vars_text(s).drop_last() + ","@ + named(v) + "]"@,
{
    reveal_strlit("[]");
    reveal_strlit("[");
    reveal_strlit("]");
    reveal_strlit(",");
    reveal_strlit("v");
    let no: Seq<IRVarId> = Seq::empty();
    assert(var_numbers(no) =~= Seq::empty());
    assert(items_text(Seq::<u32>::empty(), true, false, 0) =~= Seq::empty());
    assert(vars_text(no) =~= "[]"@);
    lemma_items_push(Seq::empty(), v.0, true, false, 0);
    assert(var_numbers(seq![v]) =~= Seq::<u32>::empty().push(v.0));
    assert(vars_text(seq![v]) =~= "["@ + named(v) + "]"@);
    if s.len() > 0 {
        let ns = var_numbers(s);
        lemma_items_push(ns, v.0, true, false, 0);
        assert(var_numbers(s.push(v)) =~= ns.push(v.0));
        let items = items_text(ns, true, false, 0);
        assert(vars_text(s).drop_last() =~= seq!['['] + items);
        assert(","@ =~= seq![',']);
        assert(named(v) =~= item_text(v.0, true));
        assert("]"@ =~= seq![']']);
        assert(vars_text(s.push(v)) =~= vars_text(s).drop_last() + ","@ + named(v) + "]"@);
    }
}

/// A list of types is in square brackets, with commas between their numbers.
pub proof fn law_types_written(s: Seq<IRTypeId>, t: IRTypeId)
    ensures
        types_text(Seq::empty()) == "[]"@,
        types_text(seq![t]) == "["@ + dec(t.0 as nat) + "]"@,
        s.len() > 0 ==> types_text(s.push(t)) == types_text(s).drop_last() + ","@ + dec(t.0 as nat)
            + "]"@,
{
    reveal_strlit("[]");
    reveal_strlit("[");
    reveal_strlit("]");
    reveal_strlit(",");
    let no: Seq<IRTypeId> = Seq::empty();
    assert(type_numbers(no) =~= Seq::empty());
    assert(items_text(Seq::<u32>::empty(), false, false, 0) =~= Seq::empty());
    assert(types_text(no) =~= "[]"@);
    lemma_items_push(Seq::empty(), t.0, false, false, 0);
    assert(type_numbers(seq![t]) =~= Seq::<u32>::empty().push(t.0));
    assert(types_text(seq![t]) =~= "["@ + dec(t.0 as nat) + "]"@);
    if s.len() > 0 {
        let ns = type_numbers(s);
        lemma_items_push(ns, t.0, false, false, 0);
        assert(type_numbers(s.push(t)) =~= ns.push(t.0));
        let items = items_text(ns, false, false, 0);
        assert(types_text(s).drop_last() =~= seq!['['] + items);
        assert(","@ =~= seq![',']);
        assert("]"@ =~= seq![']']);
        assert(types_text(s.push(t)) =~= types_text(s).drop_last() + ","@ + dec(t.0 as nat) + "]"@);
    }
}

/// A constant is its two halves in hexadecimal, the high one first.
pub proof fn law_constant_written(c: Constant)
    ensures
        constant_text(c) == "0x"@ + hex(c.hi as nat) + ":0x"@ + hex(c.lo as nat),
{
    reveal_strlit("0x");
    reveal_strlit(":0x");
    assert("0x"@ =~= seq!['0', 'x']);
    assert(":0x"@ =~= seq![':', '0', 'x']);
}

/// A destination is the caller, a block by its number, or what a variable holds.
pub proof fn law_target_written(t: IRBlockTargetId)
    ensures
        match t {
            IRBlockTargetId::Return => target_text(t) == "return"@,
            IRBlockTargetId::Block(b) => target_text(t) == "block:"@ + dec(b.0 as nat),
            IRBlockTargetId::Dyn(v) => target_text(t) == "dyn:"@ + named(v),
        },
{
    reveal_strlit("block:");
    reveal_strlit("block");
    reveal_strlit("dyn:");
    reveal_strlit("dyn");
    reveal_strlit("v");
    assert("block:"@ =~= "block"@ + seq![':']);
    assert("dyn:"@ =~= "dyn"@ + seq![':']);
    assert("v"@ =~= seq!['v']);
}

proof fn lemma_escaped_push(s: Seq<char>, c: char)
    ensures
        escaped(s.push(c)) == escaped(s) + escape(c),
    decreases s.len(),
{
    let t = s.push(c);
    if s.len() == 0 {
        assert(t.drop_first() =~= Seq::empty());
        assert(escaped(t.drop_first()) =~= Seq::empty());
        assert(escaped(t) =~= escaped(s) + escape(c));
    } else {
        lemma_escaped_push(s.drop_first(), c);
        assert(t.drop_first() =~= s.drop_first().push(c));
        lemma_joined(escape(s[0]), escaped(s.drop_first()), escape(c));
    }
}

/// A name is in quotes. Backslashes, quotes, line ends, tabs and returns are
/// written with a backslash; every other character is written as it is.
pub proof fn law_name_written(s: Seq<char>, c: char)
    ensures
        name_text(Seq::empty()) == "\"\""@,
        name_text(s.push(c)) == name_text(s).drop_last() + (if c == '\\' {
            "\\\\"@
        } else if c == '"' {
            "\\\""@
        } else if c == '\n' {
            "\\n"@
        } else if c == '\t' {
            "\\t"@
        } else if c == '\r' {
            "\\r"@
        } else {
            seq![c]
        }) + "\""@,
{
    reveal_strlit("\"\"");
    reveal_strlit("\"");
    reveal_strlit("\\\\");
    reveal_strlit("\\\"");
    reveal_strlit("\\n");
    reveal_strlit("\\t");
    reveal_strlit("\\r");
    let no: Seq<char> = Seq::empty();
    assert(escaped(no) =~= Seq::empty());
    assert(name_text(no) =~= "\"\""@);
    lemma_escaped_push(s, c);
    let e: Seq<char> = if c == '\\' {
        "\\\\"@
    } else if c == '"' {
        "\\\""@
    } else if c == '\n' {
        "\\n"@
    } else if c == '\t' {
        "\\t"@
    } else if c == '\r' {
        "\\r"@
    } else {
        seq![c]
    };
    assert(escape(c) =~= e);
    assert(name_text(s).drop_last() =~= seq!['"'] + escaped(s));
    assert(name_text(s.push(c)) =~= name_text(s).drop_last() + e + "\""@);
}

proof fn lemma_coeffs_push(cs: Seq<(Seq<IRVarId>, u8)>, c: (Seq<IRVarId>, u8), i: int)
    requires
        0 <= i <= cs.len(),
    ensures
        coeffs_text(cs.push(c), i) == coeffs_text(cs, i) + (field("coeff"@, vars_text(c.0)) + (
        seq![':'] + dec(c.1 as nat))),
    decreases cs.len() - i,
{
    let t = cs.push(c);
    let line = field("coeff"@, vars_text(c.0)) + (seq![':'] + dec(c.1 as nat));
    if i == cs.len() {
        assert(coeffs_text(t, i + 1) =~= Seq::empty());
        assert(t[i] == c);
        assert(dec(c.1 as nat) + coeffs_text(t, i + 1) =~= dec(c.1 as nat));
        assert(coeffs_text(cs, i) + line =~= line);
    } else {
        lemma_coeffs_push(cs, c, i + 1);
        assert(t[i] == cs[i]);
        let more = coeffs_text(cs, i + 1);
        let d = dec(cs[i].1 as nat);
        lemma_joined(d, more, line);
        lemma_joined(seq![':'], d + more, line);
        lemma_joined(field("coeff"@, vars_text(cs[i].0)), seq![':'] + (d + more), line);
    }
}

/// A coefficient is its variables and its value.
pub proof fn law_coefficients_written(cs: Seq<(Seq<IRVarId>, u8)>, c: (Seq<IRVarId>, u8))
    ensures
        coeffs_text(Seq::empty(), 0) == ""@,
        coeffs_text(cs.push(c), 0) == coeffs_text(cs, 0) + " coeff="@ + vars_text(c.0) + ":"@ + dec(
            c.1 as nat,
        ),
{
    reveal_strlit("");
    reveal_strlit(" coeff=");
    reveal_strlit("coeff");
    reveal_strlit(":");
    lemma_coeffs_push(cs, c, 0);
    assert(coeffs_text(Seq::empty(), 0) =~= ""@);
    assert(" coeff="@ =~= seq![' '] + "coeff"@ + seq!['=']);
    assert(":"@ =~= seq![':']);
    let a = coeffs_text(cs, 0);
    let v = vars_text(c.0);
    let d = dec(c.1 as nat);
    assert(a + (field("coeff"@, v) + (seq![':'] + d)) =~= a + " coeff="@ + v + ":"@ + d);
}

proof fn lemma_bits_push(bits: Seq<(u8, IRVarId)>, b: (u8, IRVarId), i: int)
    requires
        0 <= i <= bits.len(),
    ensures
        bits_text(bits.push(b), i) == bits_text(bits, i) + ((if bits.len() == 0 {
            Seq::empty()
        } else {
            seq![',']
        }) + bit_text(b)),
    decreases bits.len() - i,
{
    let t = bits.push(b);
    let sep: Seq<char> = if bits.len() == 0 {
        Seq::empty()
    } else {
        seq![',']
    };
    if i == bits.len() {
        assert(bits_text(t, i + 1) =~= Seq::empty());
        assert(t[i] == b);
        assert(bits_text(t, i) =~= sep + bit_text(b));
        assert(bits_text(bits, i) + (sep + bit_text(b)) =~= sep + bit_text(b));
    } else {
        lemma_bits_push(bits, b, i + 1);
        assert(t[i] == bits[i]);
        let first: Seq<char> = (if i == 0 {
            Seq::empty()
        } else {
            seq![',']
        }) + bit_text(bits[i]);
        lemma_joined(first, bits_text(bits, i + 1), sep + bit_text(b));
    }
}

/// A chosen bit is its place and its variable; commas stand between bits.
pub proof fn law_bits_written(bits: Seq<(u8, IRVarId)>, b: (u8, IRVarId))
    ensures
        bits_text(Seq::empty(), 0) == ""@,
        bits_text(seq![b], 0) == "("@ + dec(b.0 as nat) + ","@ + named(b.1) + ")"@,
        bits.len() > 0 ==> bits_text(bits.push(b), 0) == bits_text(bits, 0) + ",("@ + dec(
            b.0 as nat,
        ) + ","@ + named(b.1) + ")"@,
{
    reveal_strlit("");
    reveal_strlit("(");
    reveal_strlit(",");
    reveal_strlit(",(");
    reveal_strlit(")");
    reveal_strlit("v");
    assert(bits_text(Seq::empty(), 0) =~= ""@);
    let no: Seq<(u8, IRVarId)> = Seq::empty();
    lemma_bits_push(no, b, 0);
    assert(no.push(b) =~= seq![b]);
    assert(bits_text(seq![b], 0) =~= bit_text(b));
    assert(bit_text(b) =~= "("@ + dec(b.0 as nat) + ","@ + named(b.1) + ")"@);
    if bits.len() > 0 {
        lemma_bits_push(bits, b, 0);
        let a = bits_text(bits, 0);
        assert(a + (seq![','] + bit_text(b)) =~= a + ",("@ + dec(b.0 as nat) + ","@ + named(b.1)
            + ")"@);
    }
}

proof fn lemma_cases_push(cs: Seq<(Constant, BranchView)>, c: (Constant, BranchView), i: int)
    requires
        0 <= i <= cs.len(),
    ensures
        cases_text(cs.push(c), i) == cases_text(cs, i) + (spaced("case"@) + (spaced(
            constant_text(c.0),
        ) + (spaced("->"@) + (spaced(target_text(c.1.dest)) + field("args"@,
            vars_text(c.1.args)))))),
    decreases cs.len() - i,
{
    let t = cs.push(c);
    let line = spaced("case"@) + (spaced(constant_text(c.0)) + (spaced("->"@) + (spaced(
        target_text(c.1.dest),
    ) + field("args"@, vars_text(c.1.args)))));
    if i == cs.len() {
        assert(cases_text(t, i + 1) =~= Seq::empty());
        assert(t[i] == c);
        assert(field("args"@, vars_text(c.1.args)) + cases_text(t, i + 1) =~= field(
            "args"@,
            vars_text(c.1.args),
        ));
        assert(cases_text(cs, i) + line =~= line);
    } else {
        lemma_cases_push(cs, c, i + 1);
        assert(t[i] == cs[i]);
        let more = cases_text(cs, i + 1);
        let e = field("args"@, vars_text(cs[i].1.args));
        let d = spaced(target_text(cs[i].1.dest));
        let f = spaced(constant_text(cs[i].0));
        lemma_joined(e, more, line);
        lemma_joined(d, e + more, line);
        lemma_joined(spaced("->"@), d + (e + more), line);
        lemma_joined(f, spaced("->"@) + (d + (e + more)), line);
        lemma_joined(spaced("case"@), f + (spaced("->"@) + (d + (e + more))), line);
    }
}

/// A case of a jump table is its constant, its destination and what is handed on.
pub proof fn law_cases_written(cs: Seq<(Constant, BranchView)>, c: (Constant, BranchView))
    ensures
        cases_text(Seq::empty(), 0) == ""@,
        cases_text(cs.push(c), 0) == cases_text(cs, 0) + " case "@ + constant_text(c.0) + " -> "@
            + target_text(c.1.dest) + " args="@ + vars_text(c.1.args),
{
    reveal_strlit("");
    reveal_strlit(" case ");
    reveal_strlit("case");
    reveal_strlit(" -> ");
    reveal_strlit("->");
    reveal_strlit(" args=");
    reveal_strlit("args");
    lemma_cases_push(cs, c, 0);
    assert(cases_text(Seq::empty(), 0) =~= ""@);
    assert(" case "@ =~= seq![' '] + "case"@ + seq![' ']);
    assert(" -> "@ =~= seq![' '] + "->"@ + seq![' ']);
    assert(" args="@ =~= seq![' '] + "args"@ + seq!['=']);
    let a = cases_text(cs, 0);
    let k = constant_text(c.0);
    let d = target_text(c.1.dest);
    let v = vars_text(c.1.args);
    assert(spaced("case"@) + (spaced(k) + (spaced("->"@) + (spaced(d) + field("args"@, v))))
        =~= " case "@ + k + " -> "@ + d + " args="@ + v);
    assert(a + (" case "@ + k + " -> "@ + d + " args="@ + v) =~= a + " case "@ + k + " -> "@ + d
        + " args="@ + v);
}

// ---------------------------------------------------------------------------
// Lines
// ---------------------------------------------------------------------------

/// A type is written as its word and what it is made of.
pub proof fn law_type_written(t: IrType)
    ensures
        match t {
            IrType::Primitive(p) => ir_type_text(t@) == match p {
                PrimType::Bit => "prim bit"@,
                PrimType::_8 => "prim u8"@,
                PrimType::_16 => "prim u16"@,
                PrimType::_32 => "prim u32"@,
                PrimType::_64 => "prim u64"@,
                PrimType::_128 => "prim u128"@,
                PrimType::_256 => "prim u256"@,
                PrimType::AES8 => "prim aes8"@,
                PrimType::Galois64 => "prim galois64"@,
                PrimType::Z3 => "prim unknown"@,
            },
            IrType::Vec(n, elem) => ir_type_text(t@) == "vec "@ + dec(n as nat) + " "@ + dec(
                elem.0 as nat,
            ),
            IrType::Tuple(ids) => ir_type_text(t@) == "tuple "@ + types_text(ids@),
            IrType::Block { params } => ir_type_text(t@) == "block "@ + types_text(params@),
            IrType::Func { params, results } => ir_type_text(t@) == "func "@ + types_text(params@)
                + "->"@ + types_text(results@),
        },
{
    reveal_strlit("prim");
    reveal_strlit("prim bit");
    reveal_strlit("bit");
    reveal_strlit("prim u8");
    reveal_strlit("u8");
    reveal_strlit("prim u16");
    reveal_strlit("u16");
    reveal_strlit("prim u32");
    reveal_strlit("u32");
    reveal_strlit("prim u64");
    reveal_strlit("u64");
    reveal_strlit("prim u128");
    reveal_strlit("u128");
    reveal_strlit("prim u256");
    reveal_strlit("u256");
    reveal_strlit("prim aes8");
    reveal_strlit("aes8");
    reveal_strlit("prim galois64");
    reveal_strlit("galois64");
    reveal_strlit("prim unknown");
    reveal_strlit("unknown");
    reveal_strlit("vec");
    reveal_strlit("vec ");
    reveal_strlit(" ");
    reveal_strlit("tuple");
    reveal_strlit("tuple ");
    reveal_strlit("block");
    reveal_strlit("block ");
    reveal_strlit("func");
    reveal_strlit("func ");
    match t {
        IrType::Primitive(p) => match p {
            PrimType::Bit => assert("prim"@ + spaced("bit"@) =~= "prim bit"@),
            PrimType::_8 => assert("prim"@ + spaced("u8"@) =~= "prim u8"@),
            PrimType::_16 => assert("prim"@ + spaced("u16"@) =~= "prim u16"@),
            PrimType::_32 => assert("prim"@ + spaced("u32"@) =~= "prim u32"@),
            PrimType::_64 => assert("prim"@ + spaced("u64"@) =~= "prim u64"@),
            PrimType::_128 => assert("prim"@ + spaced("u128"@) =~= "prim u128"@),
            PrimType::_256 => assert("prim"@ + spaced("u256"@) =~= "prim u256"@),
            PrimType::AES8 => assert("prim"@ + spaced("aes8"@) =~= "prim aes8"@),
            PrimType::Galois64 => assert("prim"@ + spaced("galois64"@) =~= "prim galois64"@),
            PrimType::Z3 => assert("prim"@ + spaced("unknown"@) =~= "prim unknown"@),
        },
        IrType::Vec(n, elem) => {
            let a = dec(n as nat);
            let b = dec(elem.0 as nat);
            assert("vec "@ =~= "vec"@ + seq![' ']);
            assert(" "@ =~= seq![' ']);
            assert("vec"@ + (spaced(a) + spaced(b)) =~= "vec "@ + a + " "@ + b);
        },
        IrType::Tuple(ids) => {
            assert("tuple "@ =~= "tuple"@ + seq![' ']);
            assert("tuple"@ + spaced(types_text(ids@)) =~= "tuple "@ + types_text(ids@));
        },
        IrType::Block { params } => {
            assert("block "@ =~= "block"@ + seq![' ']);
            assert("block"@ + spaced(types_text(params@)) =~= "block "@ + types_text(params@));
        },
        IrType::Func { params, results } => {
            let a = types_text(params@);
            let b = types_text(results@);
            assert("func "@ =~= "func"@ + seq![' ']);
            assert("func"@ + (spaced(a) + ("->"@ + b)) =~= "func "@ + a + "->"@ + b);
        },
    }
}

/// Which word names which primitive type.
pub proof fn law_primitive_read(l: LexView)
    ensures
        match get_ident(l) {
            Ok((word, _)) => match get_ir_type("prim"@, l) {
                Ok((t, _)) => match t {
                    IrTypeView::Primitive(p) => match p {
                        PrimType::Bit => word == "bit"@,
                        PrimType::_8 => word == "u8"@,
                        PrimType::_16 => word == "u16"@,
                        PrimType::_32 => word == "u32"@,
                        PrimType::_64 => word == "u64"@,
                        PrimType::_128 => word == "u128"@,
                        PrimType::_256 => word == "u256"@,
                        PrimType::AES8 => word == "aes8"@,
                        PrimType::Galois64 => word == "galois64"@,
                        PrimType::Z3 => false,
                    },
                    _ => false,
                },
                Err(e) => e == ErrorView::UnknownPrimType(word) && word != "bit"@ && word != "u8"@
                    && word != "u16"@ && word != "u32"@ && word != "u64"@ && word != "u128"@ && word
                    != "u256"@ && word != "aes8"@ && word != "galois64"@,
            },
            Err(e) => get_ir_type("prim"@, l) == Err::<(IrTypeView, LexView), ErrorView>(e),
        },
{
}

/// What is read behind a word is a type of that word.
pub proof fn law_type_words(kw: Seq<char>, l: LexView)
    ensures
        match get_ir_type(kw, l) {
            Ok((t, _)) => match t {
                IrTypeView::Primitive(_) => kw == "prim"@,
                IrTypeView::Vec(..) => kw == "vec"@,
                IrTypeView::Tuple(_) => kw == "tuple"@,
                IrTypeView::Block { .. } => kw == "block"@,
                IrTypeView::Func { .. } => kw == "func"@,
            },
            Err(_) => true,
        },
        kw != "prim"@ && kw != "vec"@ && kw != "tuple"@ && kw != "block"@ && kw != "func"@
            ==> get_ir_type(kw, l) == Err::<(IrTypeView, LexView), ErrorView>(
            ErrorView::UnknownDirective(kw),
        ),
{
}

proof fn lemma_type_lines_push(ts: Seq<IrTypeView>, t: IrTypeView, i: int)
    requires
        0 <= i <= ts.len(),
    ensures
        type_lines(ts.push(t), i) == type_lines(ts, i) + ("type"@ + (spaced(dec(ts.len()))
            + (spaced(
            ir_type_text(t),
        ) + seq!['\n']))),
    decreases ts.len() - i,
{
    let all = ts.push(t);
    let line = "type"@ + (spaced(dec(ts.len())) + (spaced(ir_type_text(t)) + seq!['\n']));
    if i == ts.len() {
        assert(type_lines(all, i + 1) =~= Seq::empty());
        assert(all[i] == t);
        assert(seq!['\n'] + type_lines(all, i + 1) =~= seq!['\n']);
        assert(type_lines(ts, i) + line =~= line);
    } else {
        lemma_type_lines_push(ts, t, i + 1);
        assert(all[i] == ts[i]);
        let more = type_lines(ts, i + 1);
        let a = spaced(dec(i as nat));
        let b = spaced(ir_type_text(ts[i]));
        lemma_joined(seq!['\n'], more, line);
        lemma_joined(b, seq!['\n'] + more, line);
        lemma_joined(a, b + (seq!['\n'] + more), line);
        lemma_joined("type"@, a + (b + (seq!['\n'] + more)), line);
    }
}

/// Each type has a line with its number.
pub proof fn law_type_lines_written(ts: Seq<IrTypeView>, t: IrTypeView)
    ensures
        type_lines(Seq::empty(), 0) == ""@,
        type_lines(ts.push(t), 0) == type_lines(ts, 0) + "type "@ + dec(ts.len()) + " "@
            + ir_type_text(t) + "\n"@,
{
    reveal_strlit("");
    reveal_strlit("type");
    reveal_strlit("type ");
    reveal_strlit(" ");
    reveal_strlit("\n");
    lemma_type_lines_push(ts, t, 0);
    assert(type_lines(Seq::empty(), 0) =~= ""@);
    assert("type "@ =~= "type"@ + seq![' ']);
    assert(" "@ =~= seq![' ']);
    assert("\n"@ =~= seq!['\n']);
    let a = type_lines(ts, 0);
    let n = dec(ts.len());
    let x = ir_type_text(t);
    assert("type"@ + (spaced(n) + (spaced(x) + seq!['\n'])) =~= "type "@ + n + " "@ + x + "\n"@);
    assert(a + ("type "@ + n + " "@ + x + "\n"@) =~= a + "type "@ + n + " "@ + x + "\n"@);
}

proof fn lemma_call_lines_push(word: Seq<char>, ds: Seq<CallDeclView>, d: CallDeclView, i: int)
    requires
        0 <= i <= ds.len(),
    ensures
        call_lines(word, ds.push(d), i) == call_lines(word, ds, i) + (word + (call_decl_text(d)
            + seq!['\n'])),
    decreases ds.len() - i,
{
    let all = ds.push(d);
    let line = word + (call_decl_text(d) + seq!['\n']);
    if i == ds.len() {
        assert(call_lines(word, all, i + 1) =~= Seq::empty());
        assert(all[i] == d);
        assert(seq!['\n'] + call_lines(word, all, i + 1) =~= seq!['\n']);
        assert(call_lines(word, ds, i) + line =~= line);
    } else {
        lemma_call_lines_push(word, ds, d, i + 1);
        assert(all[i] == ds[i]);
        let more = call_lines(word, ds, i + 1);
        let a = call_decl_text(ds[i]);
        lemma_joined(seq!['\n'], more, line);
        lemma_joined(a, seq!['\n'] + more, line);
        lemma_joined(word, a + (seq!['\n'] + more), line);
    }
}

/// Each declared function has a line with its name and its types.
pub proof fn law_declarations_written(word: Seq<char>, ds: Seq<CallDeclView>, d: CallDeclView)
    ensures
        call_lines(word, Seq::empty(), 0) == ""@,
        call_lines(word, ds.push(d), 0) == call_lines(word, ds, 0) + word + " "@ + name_text(d.name)
            + " params="@ + types_text(d.params) + " results="@ + types_text(d.results) + "\n"@,
{
    reveal_strlit("");
    reveal_strlit(" ");
    reveal_strlit(" params=");
    reveal_strlit("params");
    reveal_strlit(" results=");
    reveal_strlit("results");
    reveal_strlit("\n");
    lemma_call_lines_push(word, ds, d, 0);
    assert(call_lines(word, Seq::empty(), 0) =~= ""@);
    assert(" "@ =~= seq![' ']);
    assert(" params="@ =~= seq![' '] + "params"@ + seq!['=']);
    assert(" results="@ =~= seq![' '] + "results"@ + seq!['=']);
    assert("\n"@ =~= seq!['\n']);
    let n = name_text(d.name);
    let p = types_text(d.params);
    let r = types_text(d.results);
    assert(call_decl_text(d) =~= " "@ + n + " params="@ + p + " results="@ + r);
    let a = call_lines(word, ds, 0);
    assert(a + (word + ((" "@ + n + " params="@ + p + " results="@ + r) + "\n"@)) =~= a + word
        + " "@
        + n + " params="@ + p + " results="@ + r + "\n"@);
}

proof fn lemma_rng_lines_push(ds: Seq<RngDeclView>, d: RngDeclView, i: int)
    requires
        0 <= i <= ds.len(),
    ensures
        rng_lines(ds.push(d), i) == rng_lines(ds, i) + ("rng"@ + (rng_decl_text(d) + seq!['\n'])),
    decreases ds.len() - i,
{
    let all = ds.push(d);
    let line = "rng"@ + (rng_decl_text(d) + seq!['\n']);
    if i == ds.len() {
        assert(rng_lines(all, i + 1) =~= Seq::empty());
        assert(all[i] == d);
        assert(seq!['\n'] + rng_lines(all, i + 1) =~= seq!['\n']);
        assert(rng_lines(ds, i) + line =~= line);
    } else {
        lemma_rng_lines_push(ds, d, i + 1);
        assert(all[i] == ds[i]);
        let more = rng_lines(ds, i + 1);
        let a = rng_decl_text(ds[i]);
        lemma_joined(seq!['\n'], more, line);
        lemma_joined(a, seq!['\n'] + more, line);
        lemma_joined("rng"@, a + (seq!['\n'] + more), line);
    }
}

/// Each random source has a line with its name and its type.
pub proof fn law_sources_written(ds: Seq<RngDeclView>, d: RngDeclView)
    ensures
        rng_lines(Seq::empty(), 0) == ""@,
        rng_lines(ds.push(d), 0) == rng_lines(ds, 0) + "rng "@ + name_text(d.name) + " ty="@ + dec(
            d.ty.0 as nat,
        ) + "\n"@,
{
    reveal_strlit("");
    reveal_strlit("rng");
    reveal_strlit("rng ");
    reveal_strlit(" ty=");
    reveal_strlit("ty");
    reveal_strlit("\n");
    lemma_rng_lines_push(ds, d, 0);
    assert(rng_lines(Seq::empty(), 0) =~= ""@);
    assert("rng "@ =~= "rng"@ + seq![' ']);
    assert(" ty="@ =~= seq![' '] + "ty"@ + seq!['=']);
    assert("\n"@ =~= seq!['\n']);
    let n = name_text(d.name);
    let t = dec(d.ty.0 as nat);
    let a = rng_lines(ds, 0);
    assert(a + ("rng"@ + (rng_decl_text(d) + "\n"@)) =~= a + "rng "@ + n + " ty="@ + t + "\n"@);
}

// ---------------------------------------------------------------------------
// Blocks and documents
// ---------------------------------------------------------------------------

proof fn lemma_stmt_lines_push(base: nat, ss: Seq<StmtView>, s: StmtView, i: int)
    requires
        0 <= i <= ss.len(),
    ensures
        stmt_lines(base, ss.push(s), i) == stmt_lines(base, ss, i) + (var_text(
            IRVarId((base + ss.len()) as u32),
        ) + (seq![' ', '=', ' '] + (stmt_text(s) + seq!['\n']))),
    decreases ss.len() - i,
{
    let all = ss.push(s);
    let line = var_text(IRVarId((base + ss.len()) as u32)) + (seq![' ', '=', ' '] + (stmt_text(s)
        + seq!['\n']));
    if i == ss.len() {
        assert(stmt_lines(base, all, i + 1) =~= Seq::empty());
        assert(all[i] == s);
        assert(seq!['\n'] + stmt_lines(base, all, i + 1) =~= seq!['\n']);
        assert(stmt_lines(base, ss, i) + line =~= line);
    } else {
        lemma_stmt_lines_push(base, ss, s, i + 1);
        assert(all[i] == ss[i]);
        let more = stmt_lines(base, ss, i + 1);
        let a = var_text(IRVarId((base + i) as u32));
        let b = stmt_text(ss[i]);
        lemma_joined(seq!['\n'], more, line);
        lemma_joined(b, seq!['\n'] + more, line);
        lemma_joined(seq![' ', '=', ' '], b + (seq!['\n'] + more), line);
        lemma_joined(a, seq![' ', '=', ' '] + (b + (seq!['\n'] + more)), line);
    }
}

proof fn lemma_bir_stmt_lines_push(base: nat, ss: Seq<BIrStmtView>, s: BIrStmtView, i: int)
    requires
        0 <= i <= ss.len(),
    ensures
        bir_stmt_lines(base, ss.push(s), i) == bir_stmt_lines(base, ss, i) + (var_text(
            IRVarId((base + ss.len()) as u32),
        ) + (seq![' ', '=', ' '] + (bir_stmt_text(s) + seq!['\n']))),
    decreases ss.len() - i,
{
    let all = ss.push(s);
    let line = var_text(IRVarId((base + ss.len()) as u32)) + (seq![' ', '=', ' '] + (bir_stmt_text(
        s,
    ) + seq!['\n']));
    if i == ss.len() {
        assert(bir_stmt_lines(base, all, i + 1) =~= Seq::empty());
        assert(all[i] == s);
        assert(seq!['\n'] + bir_stmt_lines(base, all, i + 1) =~= seq!['\n']);
        assert(bir_stmt_lines(base, ss, i) + line =~= line);
    } else {
        lemma_bir_stmt_lines_push(base, ss, s, i + 1);
        assert(all[i] == ss[i]);
        let more = bir_stmt_lines(base, ss, i + 1);
        let a = var_text(IRVarId((base + i) as u32));
        let b = bir_stmt_text(ss[i]);
        lemma_joined(seq!['\n'], more, line);
        lemma_joined(b, seq!['\n'] + more, line);
        lemma_joined(seq![' ', '=', ' '], b + (seq!['\n'] + more), line);
        lemma_joined(a, seq![' ', '=', ' '] + (b + (seq!['\n'] + more)), line);
    }
}

proof fn lemma_line(so_far: Seq<char>, v: IRVarId, s: Seq<char>)
    ensures
        so_far + (var_text(v) + (seq![' ', '=', ' '] + (s + seq!['\n']))) == so_far + named(v)
            + " = "@
            + s + "\n"@,
{
    reveal_strlit("v");
    reveal_strlit(" = ");
    reveal_strlit("\n");
    assert("v"@ =~= seq!['v']);
    assert(" = "@ =~= seq![' ', '=', ' ']);
    assert("\n"@ =~= seq!['\n']);
    assert(var_text(v) == named(v));
    assert(so_far + (var_text(v) + (seq![' ', '=', ' '] + (s + seq!['\n']))) =~= so_far + named(v)
        + " = "@ + s + "\n"@);
}

/// Each typed statement has a line with the variable that it defines: they are
/// numbered in turn, behind the parameters.
pub proof fn law_stmt_lines_written(base: nat, ss: Seq<StmtView>, s: StmtView)
    requires
        base + ss.len() <= u32::MAX,
    ensures
        stmt_lines(base, Seq::empty(), 0) == ""@,
        stmt_lines(base, ss.push(s), 0) == stmt_lines(base, ss, 0) + named(
            IRVarId((base + ss.len()) as u32),
        ) + " = "@ + stmt_text(s) + "\n"@,
{
    reveal_strlit("");
    assert(stmt_lines(base, Seq::empty(), 0) =~= ""@);
    lemma_stmt_lines_push(base, ss, s, 0);
    lemma_line(stmt_lines(base, ss, 0), IRVarId((base + ss.len()) as u32), stmt_text(s));
}

/// Each boolean statement has a line with the variable that it defines.
pub proof fn law_bir_stmt_lines_written(base: nat, ss: Seq<BIrStmtView>, s: BIrStmtView)
    requires
        base + ss.len() <= u32::MAX,
    ensures
        bir_stmt_lines(base, Seq::empty(), 0) == ""@,
        bir_stmt_lines(base, ss.push(s), 0) == bir_stmt_lines(base, ss, 0) + named(
            IRVarId((base + ss.len()) as u32),
        ) + " = "@ + bir_stmt_text(s) + "\n"@,
{
    reveal_strlit("");
    assert(bir_stmt_lines(base, Seq::empty(), 0) =~= ""@);
    lemma_bir_stmt_lines_push(base, ss, s, 0);
    lemma_line(bir_stmt_lines(base, ss, 0), IRVarId((base + ss.len()) as u32), bir_stmt_text(s));
}

proof fn lemma_block_joined(
    n: Seq<char>,
    p: Seq<char>,
    body: Seq<char>,
    end: Seq<char>,
)
    ensures
        spaced(n) + (seq!['\n'] + ("params"@ + (spaced(p) + (seq!['\n'] + (body + (end + (seq!['\n']
            + ("end_block"@ + seq!['\n'])))))))) == " "@ + n + "\nparams "@ + p + "\n"@ + body + end
            + "\nend_block\n"@,
{
    reveal_strlit(" ");
    reveal_strlit("\nparams ");
    reveal_strlit("params");
    reveal_strlit("\n");
    reveal_strlit("\nend_block\n");
    reveal_strlit("end_block");
    assert(" "@ =~= seq![' ']);
    assert("\n"@ =~= seq!['\n']);
    assert("\nparams "@ =~= seq!['\n'] + "params"@ + seq![' ']);
    assert("\nend_block\n"@ =~= seq!['\n'] + ("end_block"@ + seq!['\n']));
    let tail = "\nend_block\n"@;
    let a = "\n"@ + (body + (end + tail));
    assert(spaced(n) + (seq!['\n'] + ("params"@ + (spaced(p) + a))) =~= " "@ + n + "\nparams "@ + p
        + a);
    let h = " "@ + n + "\nparams "@ + p;
    assert(h + a =~= h + "\n"@ + body + end + tail);
}

/// A typed block is its number, its parameters, its statements and its end.
pub proof fn law_block_written(n: nat, b: IRBlockView)
    ensures
        block_text(n, b) == " "@ + dec(n) + "\nparams "@ + types_text(b.params) + "\n"@
            + stmt_lines(
            b.params.len(),
            b.stmts,
            0,
        ) + term_text(b.terminator) + "\nend_block\n"@,
{
    lemma_block_joined(
        dec(n),
        types_text(b.params),
        stmt_lines(b.params.len(), b.stmts, 0),
        term_text(b.terminator),
    );
}

/// A boolean block is its number, its parameter count, its statements and its
/// end.
pub proof fn law_bir_block_written(n: nat, b: BIrBlockView)
    ensures
        bir_block_text(n, b) == " "@ + dec(n) + "\nparams "@ + dec(b.params as nat) + "\n"@
            + bir_stmt_lines(b.params as nat, b.stmts, 0) + bir_term_text(b.terminator)
            + "\nend_block\n"@,
{
    lemma_block_joined(
        dec(n),
        dec(b.params as nat),
        bir_stmt_lines(b.params as nat, b.stmts, 0),
        bir_term_text(b.terminator),
    );
}

proof fn lemma_block_lines_push(bs: Seq<IRBlockView>, b: IRBlockView, i: int)
    requires
        0 <= i <= bs.len(),
    ensures
        block_lines(bs.push(b), i) == block_lines(bs, i) + ("begin_block"@ + block_text(bs.len(),
            b)),
    decreases bs.len() - i,
{
    let all = bs.push(b);
    let line = "begin_block"@ + block_text(bs.len(), b);
    if i == bs.len() {
        assert(block_lines(all, i + 1) =~= Seq::empty());
        assert(all[i] == b);
        assert(block_text(bs.len(), b) + block_lines(all, i + 1) =~= block_text(bs.len(), b));
        assert(block_lines(bs, i) + line =~= line);
    } else {
        lemma_block_lines_push(bs, b, i + 1);
        assert(all[i] == bs[i]);
        let more = block_lines(bs, i + 1);
        let a = block_text(i as nat, bs[i]);
        lemma_joined(a, more, line);
        lemma_joined("begin_block"@, a + more, line);
    }
}

proof fn lemma_bir_block_lines_push(bs: Seq<BIrBlockView>, b: BIrBlockView, i: int)
    requires
        0 <= i <= bs.len(),
    ensures
        bir_block_lines(bs.push(b), i) == bir_block_lines(bs, i) + ("begin_block"@ + bir_block_text(
            bs.len(),
            b,
        )),
    decreases bs.len() - i,
{
    let all = bs.push(b);
    let line = "begin_block"@ + bir_block_text(bs.len(), b);
    if i == bs.len() {
        assert(bir_block_lines(all, i + 1) =~= Seq::empty());
        assert(all[i] == b);
        assert(bir_block_text(bs.len(), b) + bir_block_lines(all, i + 1) =~= bir_block_text(
            bs.len(),
            b,
        ));
        assert(bir_block_lines(bs, i) + line =~= line);
    } else {
        lemma_bir_block_lines_push(bs, b, i + 1);
        assert(all[i] == bs[i]);
        let more = bir_block_lines(bs, i + 1);
        let a = bir_block_text(i as nat, bs[i]);
        lemma_joined(a, more, line);
        lemma_joined("begin_block"@, a + more, line);
    }
}

/// Blocks are numbered in turn, from zero on.
pub proof fn law_blocks_written(
    bs: Seq<IRBlockView>,
    b: IRBlockView,
    cs: Seq<BIrBlockView>,
    c: BIrBlockView,
)
    ensures
        block_lines(Seq::empty(), 0) == ""@,
        block_lines(bs.push(b), 0) == block_lines(bs, 0) + "begin_block"@ + block_text(bs.len(), b),
        bir_block_lines(Seq::empty(), 0) == ""@,
        bir_block_lines(cs.push(c), 0) == bir_block_lines(cs, 0) + "begin_block"@ + bir_block_text(
            cs.len(),
            c,
        ),
{
    reveal_strlit("");
    assert(block_lines(Seq::empty(), 0) =~= ""@);
    assert(bir_block_lines(Seq::empty(), 0) =~= ""@);
    lemma_block_lines_push(bs, b, 0);
    lemma_bir_block_lines_push(cs, c, 0);
    lemma_joined(block_lines(bs, 0), "begin_block"@, block_text(bs.len(), b));
    lemma_joined(bir_block_lines(cs, 0), "begin_block"@, bir_block_text(cs.len(), c));
}

/// A boolean program is a version line, a section line and its blocks.
pub proof fn law_bir_document_written(p: BIrBlocksView)
    ensures
        bir_text(p) == "volar-ir v1\nboolar:\n"@ + bir_block_lines(p.blocks, 0),
{
    reveal_strlit("volar-ir v1\nboolar:\n");
    reveal_strlit("volar-ir v1");
    reveal_strlit("boolar:");
    assert("volar-ir v1\nboolar:\n"@ =~= "volar-ir v1"@ + (seq!['\n'] + ("boolar:"@ + seq!['\n'])));
    let b = bir_block_lines(p.blocks, 0);
    assert(bir_text(p) =~= "volar-ir v1\nboolar:\n"@ + b);
}

/// A typed program is a version line, its types, its declared functions and
/// random sources, and its blocks, in this order.
pub proof fn law_document_written(p: SavedIrView)
    ensures
        ir_text(p) == "volar-ir v1\n"@ + type_lines(p.types, 0) + call_lines(
            "oracle"@,
            p.blocks.oracles,
            0,
        ) + call_lines("action"@, p.blocks.actions, 0) + rng_lines(p.blocks.rngs, 0) + block_lines(
            p.blocks.blocks,
            0,
        ),
{
    reveal_strlit("volar-ir v1\n");
    reveal_strlit("volar-ir v1");
    assert("volar-ir v1\n"@ =~= "volar-ir v1"@ + seq!['\n']);
    let t = type_lines(p.types, 0);
    let o = call_lines("oracle"@, p.blocks.oracles, 0);
    let a = call_lines("action"@, p.blocks.actions, 0);
    let r = rng_lines(p.blocks.rngs, 0);
    let b = block_lines(p.blocks.blocks, 0);
    let h = "volar-ir v1\n"@;
    assert(ir_text(p) =~= h + (t + (o + (a + (r + b)))));
    lemma_joined(h, t, o + (a + (r + b)));
    lemma_joined(h + t, o, a + (r + b));
    lemma_joined(h + t + o, a, r + b);
    lemma_joined(h + t + o + a, r, b);
}

// ---------------------------------------------------------------------------
// Reading
// ---------------------------------------------------------------------------

/// A line of a boolean block is a variable, a sign and a statement. Variables
/// are counted, whatever numbers are written: the statement is the next one.
pub proof fn law_bir_line_read(
    l: LexView,
    l1: LexView,
    l2: LexView,
    l3: LexView,
    l4: LexView,
    n: u32,
    kw: Seq<char>,
    s: BIrStmtView,
    so_far: Seq<BIrStmtView>,
)
    requires
        l.skipped().at('v'),
        get_var(l.skipped()) == Ok::<(u32, LexView), ErrorView>((n, l1)),
        get_char(l1, '=') == Ok::<((), LexView), ErrorView>(((), l2)),
        get_ident(l2) == Ok::<(Seq<char>, LexView), ErrorView>((kw, l3)),
        get_bir_stmt(kw, l3) == Ok::<(BIrStmtView, LexView), ErrorView>((s, l4)),
    ensures
        get_bir_body(l, so_far) == get_bir_body(l4, so_far.push(s)),
{
    reveal_with_fuel(get_bir_body, 2);
}

/// The same of a typed block.
pub proof fn law_line_read(
    l: LexView,
    l1: LexView,
    l2: LexView,
    l3: LexView,
    l4: LexView,
    n: u32,
    kw: Seq<char>,
    s: StmtView,
    so_far: Seq<StmtView>,
)
    requires
        l.skipped().at('v'),
        get_var(l.skipped()) == Ok::<(u32, LexView), ErrorView>((n, l1)),
        get_char(l1, '=') == Ok::<((), LexView), ErrorView>(((), l2)),
        get_ident(l2) == Ok::<(Seq<char>, LexView), ErrorView>((kw, l3)),
        get_stmt(kw, l3) == Ok::<(StmtView, LexView), ErrorView>((s, l4)),
    ensures
        get_body(l, so_far) == get_body(l4, so_far.push(s)),
{
    reveal_with_fuel(get_body, 2);
}

/// A block without an end is no block, and neither is one without parameters.
pub proof fn law_block_read(l: LexView)
    ensures
        match get_ident(l) {
            Err(e) => get_bir_block(l) == Err::<(BIrBlockView, LexView), ErrorView>(e)
                && get_block(l)
                == Err::<(IRBlockView, LexView), ErrorView>(e),
            Ok((kw, m)) => {
                &&& kw != "params"@ ==> get_bir_block(l) == Err::<
                    (BIrBlockView, LexView),
                    ErrorView,
                >(ErrorView::MissingField("params"@)) && get_block(l) == Err::<
                    (IRBlockView, LexView),
                    ErrorView,
                >(ErrorView::MissingField("params"@))
                &&& kw == "params"@ ==> match get_u32(m) {
                    Err(e) => get_bir_block(l) == Err::<(BIrBlockView, LexView), ErrorView>(e),
                    Ok((params, m1)) => match get_bir_body(m1, Seq::empty()) {
                        Err(e) => get_bir_block(l) == Err::<(BIrBlockView, LexView), ErrorView>(e),
                        Ok((body, m2)) => match body.1 {
                            None => get_bir_block(l) == Err::<(BIrBlockView, LexView), ErrorView>(
                                ErrorView::MissingField("terminator"@),
                            ),
                            Some(terminator) => get_bir_block(l) == Ok::<
                                (BIrBlockView, LexView),
                                ErrorView,
                            >((BIrBlockView { params, stmts: body.0, terminator }, m2)),
                        },
                    },
                }
                &&& kw == "params"@ ==> match get_types(m) {
                    Err(e) => get_block(l) == Err::<(IRBlockView, LexView), ErrorView>(e),
                    Ok((params, m1)) => match get_body(m1, Seq::empty()) {
                        Err(e) => get_block(l) == Err::<(IRBlockView, LexView), ErrorView>(e),
                        Ok((body, m2)) => match body.1 {
                            None => get_block(l) == Err::<(IRBlockView, LexView), ErrorView>(
                                ErrorView::MissingField("terminator"@),
                            ),
                            Some(terminator) => get_block(l) == Ok::<
                                (IRBlockView, LexView),
                                ErrorView,
                            >((IRBlockView { params, stmts: body.0, terminator }, m2)),
                        },
                    },
                }
            },
        },
{
}

/// A line of a typed program adds to what its word names, and to nothing else.
pub proof fn law_entry_read(kw: Seq<char>, l: LexView, d: DocView)
    ensures
        match get_entry(kw, l, d) {
            Ok((e, _)) => {
                &&& kw == "type"@ ==> e.types.len() == d.types.len() + 1 && e.types.drop_last()
                    == d.types
                &&& kw == "oracle"@ ==> e.oracles.len() == d.oracles.len() + 1
                    && e.oracles.drop_last() == d.oracles
                &&& kw == "action"@ ==> e.actions.len() == d.actions.len() + 1
                    && e.actions.drop_last() == d.actions
                &&& kw == "rng"@ ==> e.rngs.len() == d.rngs.len() + 1 && e.rngs.drop_last()
                    == d.rngs
                &&& kw == "begin_block"@ ==> e.blocks.len() == d.blocks.len() + 1
                    && e.blocks.drop_last() == d.blocks
                &&& kw != "type"@ ==> e.types == d.types
                &&& kw != "oracle"@ ==> e.oracles == d.oracles
                &&& kw != "action"@ ==> e.actions == d.actions
                &&& kw != "rng"@ ==> e.rngs == d.rngs
                &&& kw != "begin_block"@ ==> e.blocks == d.blocks
                &&& kw == "type"@ || kw == "oracle"@ || kw == "action"@ || kw == "rng"@ || kw
                    == "begin_block"@
            },
            Err(e) => kw == "type"@ || kw == "oracle"@ || kw == "action"@ || kw == "rng"@ || kw
                == "begin_block"@ || e == ErrorView::UnknownDirective(kw),
        },
{
    if let Ok((e, _)) = get_entry(kw, l, d) {
        lemma_entry_words();
        if kw == "type"@ {
            assert(e.types.drop_last() =~= d.types);
        } else if kw == "oracle"@ {
            assert(e.oracles.drop_last() =~= d.oracles);
        } else if kw == "action"@ {
            assert(e.actions.drop_last() =~= d.actions);
        } else if kw == "rng"@ {
            assert(e.rngs.drop_last() =~= d.rngs);
        } else {
            assert(e.blocks.drop_last() =~= d.blocks);
        }
    }
}

proof fn lemma_entry_words()
    ensures
        "type"@ != "oracle"@,
        "type"@ != "action"@,
        "type"@ != "rng"@,
        "type"@ != "begin_block"@,
        "oracle"@ != "action"@,
        "oracle"@ != "rng"@,
        "oracle"@ != "begin_block"@,
        "action"@ != "rng"@,
        "action"@ != "begin_block"@,
        "rng"@ != "begin_block"@,
{
    reveal_strlit("type");
    reveal_strlit("oracle");
    reveal_strlit("action");
    reveal_strlit("rng");
    reveal_strlit("begin_block");
    assert("type"@[0] == 't' && "oracle"@[0] == 'o' && "action"@[0] == 'a' && "rng"@[0] == 'r'
        && "begin_block"@[0] == 'b');
}

/// A field is its key and, behind the sign, its value.
pub proof fn law_fields_read(l: LexView, key: Seq<char>)
    ensures
        match get_key(l, key) {
            Err(e) => {
                &&& get_usize_field(l, key) == Err::<(usize, LexView), ErrorView>(e)
                &&& get_u64_field(l, key) == Err::<(u64, LexView), ErrorView>(e)
                &&& get_var_field(l, key) == Err::<(IRVarId, LexView), ErrorView>(e)
                &&& get_type_field(l, key) == Err::<(IRTypeId, LexView), ErrorView>(e)
                &&& get_storage_field(l, key) == Err::<(StorageId, LexView), ErrorView>(e)
                &&& get_lane_field(l, key) == Err::<(LaneId, LexView), ErrorView>(e)
                &&& get_vars_field(l, key) == Err::<(Seq<IRVarId>, LexView), ErrorView>(e)
                &&& get_types_field(l, key) == Err::<(Seq<IRTypeId>, LexView), ErrorView>(e)
                &&& get_constant_field(l, key) == Err::<(Constant, LexView), ErrorView>(e)
                &&& get_target_field(l, key) == Err::<(IRBlockTargetId, LexView), ErrorView>(e)
            },
            Ok((_, m)) => {
                &&& get_usize_field(l, key) == get_usize(m)
                &&& get_u64_field(l, key) == get_u64(m)
                &&& get_var_field(l, key) == get_var_id(m)
                &&& get_type_field(l, key) == get_type(m)
                &&& get_storage_field(l, key) == get_storage(m)
                &&& get_lane_field(l, key) == get_lane(m)
                &&& get_vars_field(l, key) == get_vars(m)
                &&& get_types_field(l, key) == get_types(m)
                &&& get_constant_field(l, key) == get_constant(m)
                &&& get_target_field(l, key) == get_target(m)
            },
        },
{
}

/// Values are read as the tokens that they are made of: a variable by its letter
/// and number, a type, a storage space and a lane by their numbers, and a
/// constant by its halves, the high one first.
pub proof fn law_values_read(l: LexView, i: int)
    ensures
        match get_var(l) {
            Ok((n, m)) => get_var_id(l) == Ok::<(IRVarId, LexView), ErrorView>((IRVarId(n), m)),
            Err(e) => get_var_id(l) == Err::<(IRVarId, LexView), ErrorView>(e),
        },
        match get_u32(l) {
            Ok((n, m)) => {
                &&& get_type(l) == Ok::<(IRTypeId, LexView), ErrorView>((TypeId(n), m))
                &&& get_storage(l) == Ok::<(StorageId, LexView), ErrorView>((StorageId(n), m))
                &&& get_lane(l) == Ok::<(LaneId, LexView), ErrorView>((LaneId(n), m))
            },
            Err(e) => {
                &&& get_type(l) == Err::<(IRTypeId, LexView), ErrorView>(e)
                &&& get_storage(l) == Err::<(StorageId, LexView), ErrorView>(e)
                &&& get_lane(l) == Err::<(LaneId, LexView), ErrorView>(e)
            },
        },
        match get_list(l, true, '[', ']') {
            Ok((ns, m)) => match get_vars(l) {
                Ok((vs, n)) => n == m && vs.len() == ns.len() && (0 <= i < ns.len() ==> vs[i]
                    == IRVarId(ns[i])),
                Err(_) => false,
            },
            Err(e) => get_vars(l) == Err::<(Seq<IRVarId>, LexView), ErrorView>(e),
        },
        match get_list(l, false, '[', ']') {
            Ok((ns, m)) => match get_types(l) {
                Ok((ts, n)) => n == m && ts.len() == ns.len() && (0 <= i < ns.len() ==> ts[i]
                    == TypeId(ns[i])),
                Err(_) => false,
            },
            Err(e) => get_types(l) == Err::<(Seq<IRTypeId>, LexView), ErrorView>(e),
        },
        match get_u128(l) {
            Err(e) => get_constant(l) == Err::<(Constant, LexView), ErrorView>(e),
            Ok((hi, m)) => match get_char(m, ':') {
                Err(e) => get_constant(l) == Err::<(Constant, LexView), ErrorView>(e),
                Ok((_, n)) => match get_u128(n) {
                    Err(e) => get_constant(l) == Err::<(Constant, LexView), ErrorView>(e),
                    Ok((lo, k)) => get_constant(l) == Ok::<(Constant, LexView), ErrorView>(
                        (Constant { hi, lo }, k),
                    ),
                },
            },
        },
{
}

/// Which word a destination is read behind.
pub proof fn law_target_read(l: LexView)
    ensures
        match get_ident(l) {
            Err(e) => get_target(l) == Err::<(IRBlockTargetId, LexView), ErrorView>(e),
            Ok((word, m)) => {
                &&& word == "return"@ ==> get_target(l) == Ok::<
                    (IRBlockTargetId, LexView),
                    ErrorView,
                >((IRBlockTargetId::Return, m))
                &&& word != "return"@ && word != "block"@ && word != "dyn"@ ==> get_target(l)
                    == Err::<(IRBlockTargetId, LexView), ErrorView>(
                    ErrorView::UnknownDirective(word),
                )
                &&& match get_target(l) {
                    Ok((t, _)) => match t {
                        IRBlockTargetId::Return => word == "return"@,
                        IRBlockTargetId::Block(_) => word == "block"@,
                        IRBlockTargetId::Dyn(_) => word == "dyn"@,
                    },
                    Err(_) => true,
                }
            },
        },
{
}

/// Coefficients may be written in any order, and of two for one monomial the
/// later one counts.
pub proof fn law_coefficient_read(
    l: LexView,
    l1: LexView,
    l2: LexView,
    l3: LexView,
    l4: LexView,
    l5: LexView,
    vars: Seq<IRVarId>,
    n: u32,
    so_far: Seq<(Seq<IRVarId>, u8)>,
)
    requires
        l.skipped().at('c'),
        get_ident(l.skipped()) == Ok::<(Seq<char>, LexView), ErrorView>(("coeff"@, l1)),
        get_char(l1, '=') == Ok::<((), LexView), ErrorView>(((), l2)),
        get_vars(l2) == Ok::<(Seq<IRVarId>, LexView), ErrorView>((vars, l3)),
        get_char(l3, ':') == Ok::<((), LexView), ErrorView>(((), l4)),
        get_u32(l4) == Ok::<(u32, LexView), ErrorView>((n, l5)),
    ensures
        get_coeffs(l, so_far) == get_coeffs(
            l5,
            assoc_insert(so_far, vars, n as u8, vars_order()),
        ),
{
    reveal_with_fuel(get_coeffs, 2);
}

/// So may the cases of a jump table.
pub proof fn law_case_read(
    l: LexView,
    l1: LexView,
    l2: LexView,
    c: (Constant, BranchView),
    so_far: Seq<(Constant, BranchView)>,
)
    requires
        l.skipped().at('c'),
        get_ident(l.skipped()) == Ok::<(Seq<char>, LexView), ErrorView>(("case"@, l1)),
        get_case(l1) == Ok::<((Constant, BranchView), LexView), ErrorView>((c, l2)),
    ensures
        get_cases(l, so_far) == get_cases(
            l2,
            assoc_insert(so_far, c.0, c.1, constant_order()),
        ),
{
    reveal_with_fuel(get_cases, 2);
}

proof fn lemma_first_line(line: Seq<char>, k: Seq<char>)
    requires
        forall|i: int| 0 <= i < line.len() ==> line[i] != '\n',
        k.len() > 0 ==> k[0] == '\n',
    ensures
        line_len(line + k) == line.len(),
    decreases line.len(),
{
    if line.len() == 0 {
        assert(line + k =~= k);
    } else {
        assert((line + k)[0] == line[0]);
        assert((line + k).drop_first() =~= line.drop_first() + k);
        lemma_first_line(line.drop_first(), k);
    }
}

/// White space at the ends of a text is left out, and nothing else.
pub proof fn law_trimmed(s: Seq<char>, c: char)
    ensures
        c == ' ' || c == '\t' || c == '\r' || c == '\n' ==> trimmed(seq![c] + s) == trimmed(s),
        s.len() > 0 && !is_space(s[0]) && !is_space(s.last()) ==> trimmed(s) == s,
        s.len() > 0 && !is_space(s[0]) && (c == ' ' || c == '\t' || c == '\r' || c == '\n')
            ==> trimmed(s.push(c)) == trimmed(s),
        !is_space('v') && !is_space('1') && !is_space('-'),
{
    assert((seq![c] + s)[0] == c);
    assert((seq![c] + s).drop_first() =~= s);
    if s.len() > 0 {
        assert(s.push(c)[0] == s[0]);
        assert(s.push(c).drop_last() =~= s);
    }
}

proof fn lemma_header_of(line: Seq<char>, k: Seq<char>)
    requires
        forall|i: int| 0 <= i < line.len() ==> line[i] != '\n',
        line.len() > 0 ==> !is_space(line[0]) && !is_space(line.last()),
        k.len() > 0 ==> k[0] == '\n',
    ensures
        header_of(line + k) == line,
{
    lemma_first_line(line, k);
    assert((line + k).take(line.len() as int) =~= line);
    assert(trimmed(line) == line);
}

proof fn lemma_other_version(line: Seq<char>)
    requires
        line != "volar-ir v1"@,
    ensures
        header_error(line, "volar-ir v1"@, seq!["volar-ir v"@]) == (if "volar-ir v"@.is_prefix_of(
            line,
        ) {
            Some(ErrorView::UnsupportedVersion(line))
        } else {
            Some(ErrorView::MissingVersionLine)
        }),
        header_error(line, "volar-ir v1"@, seq!["volar-ir v"@, "volar-bir v"@]) == (
        if "volar-ir v"@.is_prefix_of(line) || "volar-bir v"@.is_prefix_of(line) {
            Some(ErrorView::UnsupportedVersion(line))
        } else {
            Some(ErrorView::MissingVersionLine)
        }),
{
    let one = seq!["volar-ir v"@];
    let two = seq!["volar-ir v"@, "volar-bir v"@];
    assert(one[0] == "volar-ir v"@);
    assert(two[0] == "volar-ir v"@);
    assert(two[1] == "volar-bir v"@);
}

/// A typed program of another version is told from a text that is none by how
/// its first line starts.
pub proof fn law_version_line(line: Seq<char>, k: Seq<char>)
    requires
        line != "volar-ir v1"@,
        forall|i: int| 0 <= i < line.len() ==> line[i] != '\n',
        line.len() > 0 ==> !is_space(line[0]) && !is_space(line.last()),
        k.len() > 0 ==> k[0] == '\n',
    ensures
        get_ir(line + k) == Err::<SavedIrView, ErrorView>(
            if "volar-ir v"@.is_prefix_of(line) {
                ErrorView::UnsupportedVersion(line)
            } else {
                ErrorView::MissingVersionLine
            },
        ),
{
    lemma_header_of(line, k);
    lemma_other_version(line);
}

/// So is a boolean one, which may start in two ways.
pub proof fn law_bir_version_line(line: Seq<char>, k: Seq<char>)
    requires
        line != "volar-ir v1"@,
        forall|i: int| 0 <= i < line.len() ==> line[i] != '\n',
        line.len() > 0 ==> !is_space(line[0]) && !is_space(line.last()),
        k.len() > 0 ==> k[0] == '\n',
    ensures
        get_bir(line + k) == Err::<BIrBlocksView, ErrorView>(
            if "volar-ir v"@.is_prefix_of(line) || "volar-bir v"@.is_prefix_of(line) {
                ErrorView::UnsupportedVersion(line)
            } else {
                ErrorView::MissingVersionLine
            },
        ),
{
    lemma_header_of(line, k);
    lemma_other_version(line);
}

} // verus!
