//! The sections on typed regions and typed gadgets as text, and that reading
//! gives back what was written.
//!
//! ```text
//! typed_regions {
//!   input p0 [0, 8) -> {0}
//!   block_input b1 p0 [0, 8) -> {1}
//!   func_input f0 p0 [0, 8) -> {1}
//!   output o0 [0, 8) -> {0}
//!   func_output f0 r0 [0, 8) -> {0}
//!   storage S1 T3 [0, 4) -> {2}
//! }
//! typed_gadgets {
//!   gadget "pad8" on {all=[0], none=[1]} aux=[const <90>, input p1 [0], rng "n"]
//! }
//! typed_gadget_specs {
//!   spec "pad8" data T0:1 aux:"key" T2:1
//! }
//! ```
//!
//! The bodies of gadgets are not written: a gadget is written by its name and
//! its ports.

use vstd::prelude::*;

use crate::common::{Constant, StorageId};
use crate::fmt::{dec, push_dec};
use crate::gadget::PortKind;
use crate::ir::{IRBlockId, IRTypeId};
use crate::region::{ascending, RegionNames, RegionSelector};
use crate::text::error::{ErrorView, ParseError};
use crate::text::fields::{lemma_usize, put_name};
use crate::text::lexer::{
    byte_count, get_char, get_ident, get_string, get_u128, get_u64, get_usize, get_word, gives,
    gives_view, group_shrinks, is_blank, is_word, try_char, try_comma, LexView, Lexer, Parsed,
};
use crate::text::pieces::{
    at_blank, at_token, is_name, lemma_at_token, lemma_char, lemma_dec, lemma_digits, lemma_joined,
    lemma_past_blank, lemma_quoted, lemma_word, quoted, reads,
};
use crate::text::region_parts::{
    get_ids, get_mark, get_rng_source, get_selector, get_span, ids_text, lemma_ids, lemma_mark,
    lemma_mark_shrinks, lemma_opened, lemma_past_blanks, lemma_rng_source,
    lemma_rng_source_shrinks, lemma_selector, lemma_selector_shrinks, lemma_skipped_twice,
    lemma_span, lemma_span_shrinks, mark_text, opened, put_ids, put_mark, put_range,
    put_rng_source, put_selector, range_text, read_ids, read_mark, read_rng_source, read_selector,
    read_span, rng_text, selector_text,
};
use crate::text::traits::WriteText;
use crate::typed_gadget::{
    typed_aux_views, typed_binding_views, typed_port_views, TypedAuxSource, TypedAuxView,
    TypedBindingView, TypedGadgetBinding, TypedGadgetLibrary, TypedGadgetSpec, TypedPort,
    TypedPortView,
};
use crate::typed_region::{
    typed_entry_views, TypedAnchor, TypedEntryView, TypedRegionEntry, TypedRegionTable,
    TypedTableView,
};

verus! {

// ---------------------------------------------------------------------------
// Anchors
// ---------------------------------------------------------------------------

/// An anchor.
#[verifier::opaque]
pub open spec fn typed_anchor_text(a: TypedAnchor) -> Seq<char> {
    match a {
        TypedAnchor::Input { param, start, len } => "input"@ + (mark_text('p', param) + (seq![' '] + range_text(start as nat, (start + len) as nat))),
        TypedAnchor::BlockInput { block, param, start, len } => "block_input"@ + (mark_text('b', block.0) + (mark_text('p', param) + (seq![' '] + range_text(start as nat, (start + len) as nat)))),
        TypedAnchor::FuncInput { func, param, start, len } => "func_input"@ + (mark_text('f', func) + (mark_text('p', param) + (seq![' '] + range_text(start as nat, (start + len) as nat)))),
        TypedAnchor::Output { out, start, len } => "output"@ + (mark_text('o', out) + (seq![' '] + range_text(start as nat, (start + len) as nat))),
        TypedAnchor::FuncOutput { func, result, start, len } => "func_output"@ + (mark_text('f', func) + (mark_text('r', result) + (seq![' '] + range_text(start as nat, (start + len) as nat)))),
        TypedAnchor::Storage { storage, ty, addr_start, addr_len } => "storage"@ + (mark_text('S', storage.0) + (mark_text('T', ty.0) + (seq![' '] + range_text(addr_start as nat, (addr_start + addr_len) as nat)))),
    }
}

/// A number behind its letter, and a range.
pub open spec fn get_one(l: LexView, c: char, max: u64, wrong: Seq<char>) -> Parsed<
    (u32, u64, u64),
> {
    match get_mark(l, c) {
        Err(e) => Err(e),
        Ok((n, l)) => match get_span(l, max, wrong) {
            Err(e) => Err(e),
            Ok((r, l)) => Ok(((n, r.0, r.1), l)),
        },
    }
}

/// Two numbers behind their letters, and a range.
pub open spec fn get_two(l: LexView, c: char, d: char, max: u64, wrong: Seq<char>) -> Parsed<
    (u32, u32, u64, u64),
> {
    match get_mark(l, c) {
        Err(e) => Err(e),
        Ok((n, l)) => match get_one(l, d, max, wrong) {
            Err(e) => Err(e),
            Ok((r, l)) => Ok(((n, r.0, r.1, r.2), l)),
        },
    }
}

/// An anchor.
#[verifier::opaque]
pub open spec fn get_typed_anchor(l: LexView) -> Parsed<TypedAnchor> {
    let bits = u16::MAX as u64;
    let wrong = "range out of u16"@;
    match get_ident(l) {
        Err(e) => Err(e),
        Ok((kind, l)) => if kind == "input"@ {
            match get_one(l, 'p', bits, wrong) {
                Err(e) => Err(e),
                Ok((r, l)) => Ok((TypedAnchor::Input { param: r.0, start: r.1 as u16, len: r.2 as u16 }, l)),
            }
        } else if kind == "block_input"@ {
            match get_two(l, 'b', 'p', bits, wrong) {
                Err(e) => Err(e),
                Ok((r, l)) => Ok((TypedAnchor::BlockInput { block: IRBlockId(r.0), param: r.1, start: r.2 as u16, len: r.3 as u16 }, l)),
            }
        } else if kind == "func_input"@ {
            match get_two(l, 'f', 'p', bits, wrong) {
                Err(e) => Err(e),
                Ok((r, l)) => Ok((TypedAnchor::FuncInput { func: r.0, param: r.1, start: r.2 as u16, len: r.3 as u16 }, l)),
            }
        } else if kind == "output"@ {
            match get_one(l, 'o', bits, wrong) {
                Err(e) => Err(e),
                Ok((r, l)) => Ok((TypedAnchor::Output { out: r.0, start: r.1 as u16, len: r.2 as u16 }, l)),
            }
        } else if kind == "func_output"@ {
            match get_two(l, 'f', 'r', bits, wrong) {
                Err(e) => Err(e),
                Ok((r, l)) => Ok((TypedAnchor::FuncOutput { func: r.0, result: r.1, start: r.2 as u16, len: r.3 as u16 }, l)),
            }
        } else if kind == "storage"@ {
            match get_two(l, 'S', 'T', u64::MAX, Seq::empty()) {
                Err(e) => Err(e),
                Ok((r, l)) => Ok((TypedAnchor::Storage { storage: StorageId(r.0), ty: IRTypeId(r.1), addr_start: r.2, addr_len: r.3 }, l)),
            }
        } else {
            Err(ErrorView::UnknownDirective(kind))
        },
    }
}

/// An anchor ends further on than it starts.
pub proof fn lemma_typed_anchor_shrinks(l: LexView)
    ensures
        get_typed_anchor(l) matches Ok((_, m)) ==> m.rest.len() < l.rest.len(),
{
    broadcast use group_shrinks;

    reveal(get_typed_anchor);
    assert forall|x: LexView, max: u64, wrong: Seq<char>| #[trigger]
        get_span(x, max, wrong) matches Ok((_, m)) ==> m.rest.len() < x.rest.len() by {
        lemma_span_shrinks(x, max, wrong);
    }
    assert forall|x: LexView, c: char| #[trigger] get_mark(x, c) matches Ok((_, m)) ==> m.rest.len()
        < x.rest.len() by {
        lemma_mark_shrinks(x, c);
    }
}

fn put_typed_anchor(w: &mut String, a: &TypedAnchor)
    requires
        a.fits(),
    ensures
        final(w)@ == old(w)@ + typed_anchor_text(*a),
{
    reveal(typed_anchor_text);
    match a {
        TypedAnchor::Input { param, start, len } => {
            let ghost z = w@;
            w.push_str("input");
            put_mark(w, 'p', *param);
            w.push(' ');
            put_range(w, *start as u64, (*start + *len) as u64);
            proof {
                let p1 = "input"@;
                let p2 = mark_text('p', *param);
                let p3 = seq![' '];
                let p4 = range_text(*start as nat, (*start + *len) as nat);
                assert(w@ =~= z + p1 + p2 + p3 + p4);
                lemma_joined(z + p1 + p2, p3, p4);
                lemma_joined(z + p1, p2, p3 + p4);
                lemma_joined(z, p1, p2 + (p3 + p4));
            }
        },
        TypedAnchor::BlockInput { block, param, start, len } => {
            let ghost z = w@;
            w.push_str("block_input");
            put_mark(w, 'b', block.0);
            put_mark(w, 'p', *param);
            w.push(' ');
            put_range(w, *start as u64, (*start + *len) as u64);
            proof {
                let p1 = "block_input"@;
                let p2 = mark_text('b', block.0);
                let p3 = mark_text('p', *param);
                let p4 = seq![' '];
                let p5 = range_text(*start as nat, (*start + *len) as nat);
                assert(w@ =~= z + p1 + p2 + p3 + p4 + p5);
                lemma_joined(z + p1 + p2 + p3, p4, p5);
                lemma_joined(z + p1 + p2, p3, p4 + p5);
                lemma_joined(z + p1, p2, p3 + (p4 + p5));
                lemma_joined(z, p1, p2 + (p3 + (p4 + p5)));
            }
        },
        TypedAnchor::FuncInput { func, param, start, len } => {
            let ghost z = w@;
            w.push_str("func_input");
            put_mark(w, 'f', *func);
            put_mark(w, 'p', *param);
            w.push(' ');
            put_range(w, *start as u64, (*start + *len) as u64);
            proof {
                let p1 = "func_input"@;
                let p2 = mark_text('f', *func);
                let p3 = mark_text('p', *param);
                let p4 = seq![' '];
                let p5 = range_text(*start as nat, (*start + *len) as nat);
                assert(w@ =~= z + p1 + p2 + p3 + p4 + p5);
                lemma_joined(z + p1 + p2 + p3, p4, p5);
                lemma_joined(z + p1 + p2, p3, p4 + p5);
                lemma_joined(z + p1, p2, p3 + (p4 + p5));
                lemma_joined(z, p1, p2 + (p3 + (p4 + p5)));
            }
        },
        TypedAnchor::Output { out, start, len } => {
            let ghost z = w@;
            w.push_str("output");
            put_mark(w, 'o', *out);
            w.push(' ');
            put_range(w, *start as u64, (*start + *len) as u64);
            proof {
                let p1 = "output"@;
                let p2 = mark_text('o', *out);
                let p3 = seq![' '];
                let p4 = range_text(*start as nat, (*start + *len) as nat);
                assert(w@ =~= z + p1 + p2 + p3 + p4);
                lemma_joined(z + p1 + p2, p3, p4);
                lemma_joined(z + p1, p2, p3 + p4);
                lemma_joined(z, p1, p2 + (p3 + p4));
            }
        },
        TypedAnchor::FuncOutput { func, result, start, len } => {
            let ghost z = w@;
            w.push_str("func_output");
            put_mark(w, 'f', *func);
            put_mark(w, 'r', *result);
            w.push(' ');
            put_range(w, *start as u64, (*start + *len) as u64);
            proof {
                let p1 = "func_output"@;
                let p2 = mark_text('f', *func);
                let p3 = mark_text('r', *result);
                let p4 = seq![' '];
                let p5 = range_text(*start as nat, (*start + *len) as nat);
                assert(w@ =~= z + p1 + p2 + p3 + p4 + p5);
                lemma_joined(z + p1 + p2 + p3, p4, p5);
                lemma_joined(z + p1 + p2, p3, p4 + p5);
                lemma_joined(z + p1, p2, p3 + (p4 + p5));
                lemma_joined(z, p1, p2 + (p3 + (p4 + p5)));
            }
        },
        TypedAnchor::Storage { storage, ty, addr_start, addr_len } => {
            let ghost z = w@;
            w.push_str("storage");
            put_mark(w, 'S', storage.0);
            put_mark(w, 'T', ty.0);
            w.push(' ');
            put_range(w, *addr_start, *addr_start + *addr_len);
            proof {
                let p1 = "storage"@;
                let p2 = mark_text('S', storage.0);
                let p3 = mark_text('T', ty.0);
                let p4 = seq![' '];
                let p5 = range_text(*addr_start as nat, (*addr_start + *addr_len) as nat);
                assert(w@ =~= z + p1 + p2 + p3 + p4 + p5);
                lemma_joined(z + p1 + p2 + p3, p4, p5);
                lemma_joined(z + p1 + p2, p3, p4 + p5);
                lemma_joined(z + p1, p2, p3 + (p4 + p5));
                lemma_joined(z, p1, p2 + (p3 + (p4 + p5)));
            }
        },
    }
}

fn read_one(lex: &mut Lexer, c: char, max: u64, wrong: &str) -> (r: Result<
    (u32, u64, u64),
    ParseError,
>)
    requires
        byte_count(c) == 1,
    ensures
        gives(r, final(lex)@, get_one(old(lex)@, c, max, wrong@)),
{
    let n: u32 = match read_mark(lex, c) {
        Ok(x) => x,
        Err(e) => {
            return Err(e);
        },
    };
    match read_span(lex, max, wrong) {
        Ok((start, len)) => Ok((n, start, len)),
        Err(e) => Err(e),
    }
}

fn read_two(lex: &mut Lexer, c: char, d: char, max: u64, wrong: &str) -> (r: Result<
    (u32, u32, u64, u64),
    ParseError,
>)
    requires
        byte_count(c) == 1,
        byte_count(d) == 1,
    ensures
        gives(r, final(lex)@, get_two(old(lex)@, c, d, max, wrong@)),
{
    let n: u32 = match read_mark(lex, c) {
        Ok(x) => x,
        Err(e) => {
            return Err(e);
        },
    };
    match read_one(lex, d, max, wrong) {
        Ok((m, start, len)) => Ok((n, m, start, len)),
        Err(e) => Err(e),
    }
}

#[verifier::rlimit(60)]
fn read_typed_anchor(lex: &mut Lexer) -> (r: Result<TypedAnchor, ParseError>)
    ensures
        gives(r, final(lex)@, get_typed_anchor(old(lex)@)),
{
    reveal(get_typed_anchor);
    let kind: String = match lex.read_ident() {
        Ok(x) => x,
        Err(e) => {
            return Err(e);
        },
    };
    let bits: u64 = u16::MAX as u64;
    proof {
        reveal_strlit("");
        assert(""@ =~= Seq::empty());
    }
    if is_word(&kind, "input") {
        match read_one(lex, 'p', bits, "range out of u16") {
            Ok((a, s, n)) => Ok(TypedAnchor::Input { param: a, start: s as u16, len: n as u16 }),
            Err(e) => Err(e),
        }
    } else if is_word(&kind, "block_input") {
        match read_two(lex, 'b', 'p', bits, "range out of u16") {
            Ok((a, b, s, n)) => Ok(TypedAnchor::BlockInput { block: IRBlockId(a), param: b, start: s as u16, len: n as u16 }),
            Err(e) => Err(e),
        }
    } else if is_word(&kind, "func_input") {
        match read_two(lex, 'f', 'p', bits, "range out of u16") {
            Ok((a, b, s, n)) => Ok(TypedAnchor::FuncInput { func: a, param: b, start: s as u16, len: n as u16 }),
            Err(e) => Err(e),
        }
    } else if is_word(&kind, "output") {
        match read_one(lex, 'o', bits, "range out of u16") {
            Ok((a, s, n)) => Ok(TypedAnchor::Output { out: a, start: s as u16, len: n as u16 }),
            Err(e) => Err(e),
        }
    } else if is_word(&kind, "func_output") {
        match read_two(lex, 'f', 'r', bits, "range out of u16") {
            Ok((a, b, s, n)) => Ok(TypedAnchor::FuncOutput { func: a, result: b, start: s as u16, len: n as u16 }),
            Err(e) => Err(e),
        }
    } else if is_word(&kind, "storage") {
        match read_two(lex, 'S', 'T', u64::MAX, "") {
            Ok((a, b, s, n)) => Ok(TypedAnchor::Storage { storage: StorageId(a), ty: IRTypeId(b), addr_start: s, addr_len: n }),
            Err(e) => Err(e),
        }
    } else {
        Err(ParseError::UnknownDirective(kind))
    }
}

/// The words of anchors are words, and no two are the same.
proof fn lemma_typed_anchor_words()
    ensures
        is_name("input"@),
        "input"@[0] == 'i',
        is_name("block_input"@),
        "block_input"@[0] == 'b',
        is_name("func_input"@),
        "func_input"@[0] == 'f',
        is_name("output"@),
        "output"@[0] == 'o',
        is_name("func_output"@),
        "func_output"@[0] == 'f',
        is_name("storage"@),
        "storage"@[0] == 's',
        "input"@ != "block_input"@,
        "input"@ != "func_input"@,
        "input"@ != "output"@,
        "input"@ != "func_output"@,
        "input"@ != "storage"@,
        "block_input"@ != "func_input"@,
        "block_input"@ != "output"@,
        "block_input"@ != "func_output"@,
        "block_input"@ != "storage"@,
        "func_input"@ != "output"@,
        "func_input"@ != "func_output"@,
        "func_input"@ != "storage"@,
        "output"@ != "func_output"@,
        "output"@ != "storage"@,
        "func_output"@ != "storage"@,
{
    reveal_strlit("input");
    reveal_strlit("block_input");
    reveal_strlit("func_input");
    reveal_strlit("output");
    reveal_strlit("func_output");
    reveal_strlit("storage");
    assert("block_input"@[0] != "func_output"@[0]);
}

proof fn lemma_typed_anchor_starts(a: TypedAnchor, k: Seq<char>)
    ensures
        at_token(typed_anchor_text(a) + k),
        (typed_anchor_text(a) + k).len() > 0,
        (typed_anchor_text(a) + k)[0] != '}',
{
    reveal(typed_anchor_text);
    lemma_typed_anchor_words();
    let t = typed_anchor_text(a);
    match a {
        TypedAnchor::Input { .. } => {
            assert(t[0] == 'i');
        },
        TypedAnchor::BlockInput { .. } => {
            assert(t[0] == 'b');
        },
        TypedAnchor::FuncInput { .. } => {
            assert(t[0] == 'f');
        },
        TypedAnchor::Output { .. } => {
            assert(t[0] == 'o');
        },
        TypedAnchor::FuncOutput { .. } => {
            assert(t[0] == 'f');
        },
        TypedAnchor::Storage { .. } => {
            assert(t[0] == 's');
        },
    }
    assert((t + k)[0] == t[0]);
}

/// A number behind its letter and a range are read back.
proof fn lemma_one(
    l: LexView,
    c: char,
    n: u32,
    s: u64,
    len: u64,
    max: u64,
    wrong: Seq<char>,
    k: Seq<char>,
)
    requires
        !is_blank(c) && c != ';',
        s <= max,
        len <= max,
        s + len <= u64::MAX,
        l.rest == mark_text(c, n) + (seq![' '] + (range_text(s as nat, (s + len) as nat) + k)),
    ensures
        reads(get_one(l, c, max, wrong), (n, s, len), k),
{
    let r = range_text(s as nat, (s + len) as nat) + k;
    let k1 = seq![' '] + r;
    assert(k1[0] == ' ');
    lemma_mark(l, c, n, k1);
    let l1 = get_mark(l, c)->Ok_0.1;
    assert(r[0] == '[');
    lemma_past_blank(l1, ' ', r);
    lemma_span(l1, s, len, max, wrong, k);
}

/// Anchors of this kind are read back.
proof fn lemma_input_anchor(l: LexView, param: u32, start: u16, len: u16, k: Seq<char>)
    requires
        start + len <= u16::MAX,
        l.skipped().rest == typed_anchor_text(
            TypedAnchor::Input { param, start, len },
        ) + k,
    ensures
        reads(get_typed_anchor(l), (TypedAnchor::Input { param, start, len }), k),
{
    let a = TypedAnchor::Input { param, start, len };
    assert(reads(get_typed_anchor(l), a, k)) by {
    reveal(typed_anchor_text);
    reveal(get_typed_anchor);
    lemma_typed_anchor_words();
    let r = range_text(start as nat, (start + len) as nat) + k;
    let k1 = mark_text('p', param) + (seq![' '] + r);
    assert(typed_anchor_text(a) + k == "input"@ + k1) by {
        let p1 = "input"@;
        let p2 = mark_text('p', param);
        let p3 = seq![' '];
        let p4 = range_text(start as nat, (start + len) as nat);
        lemma_joined(p1, p2 + (p3 + p4), k);
        lemma_joined(p2, p3 + p4, k);
        lemma_joined(p3, p4, k);
    }
    assert(mark_text('p', param)[0] == ' ');
    assert(k1[0] == ' ');
    lemma_word(l, "input"@, k1);
    let l1 = get_ident(l)->Ok_0.1;
    lemma_one(l1, 'p', param, start as u64, len as u64, u16::MAX as u64, "range out of u16"@, k);
    }
}

/// Anchors of this kind are read back.
proof fn lemma_block_input_anchor(l: LexView, block: IRBlockId, param: u32, start: u16, len: u16, k: Seq<char>)
    requires
        start + len <= u16::MAX,
        l.skipped().rest == typed_anchor_text(
            TypedAnchor::BlockInput { block, param, start, len },
        ) + k,
    ensures
        reads(get_typed_anchor(l), (TypedAnchor::BlockInput { block, param, start, len }), k),
{
    let a = TypedAnchor::BlockInput { block, param, start, len };
    assert(reads(get_typed_anchor(l), a, k)) by {
    reveal(typed_anchor_text);
    reveal(get_typed_anchor);
    lemma_typed_anchor_words();
    let r = range_text(start as nat, (start + len) as nat) + k;
    let k2 = mark_text('p', param) + (seq![' '] + r);
    let k1 = mark_text('b', block.0) + (k2);
    assert(typed_anchor_text(a) + k == "block_input"@ + k1) by {
        let p1 = "block_input"@;
        let p2 = mark_text('b', block.0);
        let p3 = mark_text('p', param);
        let p4 = seq![' '];
        let p5 = range_text(start as nat, (start + len) as nat);
        lemma_joined(p1, p2 + (p3 + (p4 + p5)), k);
        lemma_joined(p2, p3 + (p4 + p5), k);
        lemma_joined(p3, p4 + p5, k);
        lemma_joined(p4, p5, k);
    }
    assert(mark_text('b', block.0)[0] == ' ');
    assert(k1[0] == ' ');
    lemma_word(l, "block_input"@, k1);
    let l1 = get_ident(l)->Ok_0.1;
    assert(mark_text('p', param)[0] == ' ');
    assert(k2[0] == ' ');
    lemma_mark(l1, 'b', block.0, k2);
    let l2 = get_mark(l1, 'b')->Ok_0.1;
    lemma_one(l2, 'p', param, start as u64, len as u64, u16::MAX as u64, "range out of u16"@, k);
    }
}

/// Anchors of this kind are read back.
proof fn lemma_func_input_anchor(l: LexView, func: u32, param: u32, start: u16, len: u16, k: Seq<char>)
    requires
        start + len <= u16::MAX,
        l.skipped().rest == typed_anchor_text(
            TypedAnchor::FuncInput { func, param, start, len },
        ) + k,
    ensures
        reads(get_typed_anchor(l), (TypedAnchor::FuncInput { func, param, start, len }), k),
{
    let a = TypedAnchor::FuncInput { func, param, start, len };
    assert(reads(get_typed_anchor(l), a, k)) by {
    reveal(typed_anchor_text);
    reveal(get_typed_anchor);
    lemma_typed_anchor_words();
    let r = range_text(start as nat, (start + len) as nat) + k;
    let k2 = mark_text('p', param) + (seq![' '] + r);
    let k1 = mark_text('f', func) + (k2);
    assert(typed_anchor_text(a) + k == "func_input"@ + k1) by {
        let p1 = "func_input"@;
        let p2 = mark_text('f', func);
        let p3 = mark_text('p', param);
        let p4 = seq![' '];
        let p5 = range_text(start as nat, (start + len) as nat);
        lemma_joined(p1, p2 + (p3 + (p4 + p5)), k);
        lemma_joined(p2, p3 + (p4 + p5), k);
        lemma_joined(p3, p4 + p5, k);
        lemma_joined(p4, p5, k);
    }
    assert(mark_text('f', func)[0] == ' ');
    assert(k1[0] == ' ');
    lemma_word(l, "func_input"@, k1);
    let l1 = get_ident(l)->Ok_0.1;
    assert(mark_text('p', param)[0] == ' ');
    assert(k2[0] == ' ');
    lemma_mark(l1, 'f', func, k2);
    let l2 = get_mark(l1, 'f')->Ok_0.1;
    lemma_one(l2, 'p', param, start as u64, len as u64, u16::MAX as u64, "range out of u16"@, k);
    }
}

/// Anchors of this kind are read back.
proof fn lemma_output_anchor(l: LexView, out: u32, start: u16, len: u16, k: Seq<char>)
    requires
        start + len <= u16::MAX,
        l.skipped().rest == typed_anchor_text(
            TypedAnchor::Output { out, start, len },
        ) + k,
    ensures
        reads(get_typed_anchor(l), (TypedAnchor::Output { out, start, len }), k),
{
    let a = TypedAnchor::Output { out, start, len };
    assert(reads(get_typed_anchor(l), a, k)) by {
    reveal(typed_anchor_text);
    reveal(get_typed_anchor);
    lemma_typed_anchor_words();
    let r = range_text(start as nat, (start + len) as nat) + k;
    let k1 = mark_text('o', out) + (seq![' '] + r);
    assert(typed_anchor_text(a) + k == "output"@ + k1) by {
        let p1 = "output"@;
        let p2 = mark_text('o', out);
        let p3 = seq![' '];
        let p4 = range_text(start as nat, (start + len) as nat);
        lemma_joined(p1, p2 + (p3 + p4), k);
        lemma_joined(p2, p3 + p4, k);
        lemma_joined(p3, p4, k);
    }
    assert(mark_text('o', out)[0] == ' ');
    assert(k1[0] == ' ');
    lemma_word(l, "output"@, k1);
    let l1 = get_ident(l)->Ok_0.1;
    lemma_one(l1, 'o', out, start as u64, len as u64, u16::MAX as u64, "range out of u16"@, k);
    }
}

/// Anchors of this kind are read back.
proof fn lemma_func_output_anchor(l: LexView, func: u32, result: u32, start: u16, len: u16, k: Seq<char>)
    requires
        start + len <= u16::MAX,
        l.skipped().rest == typed_anchor_text(
            TypedAnchor::FuncOutput { func, result, start, len },
        ) + k,
    ensures
        reads(get_typed_anchor(l), (TypedAnchor::FuncOutput { func, result, start, len }), k),
{
    let a = TypedAnchor::FuncOutput { func, result, start, len };
    assert(reads(get_typed_anchor(l), a, k)) by {
    reveal(typed_anchor_text);
    reveal(get_typed_anchor);
    lemma_typed_anchor_words();
    let r = range_text(start as nat, (start + len) as nat) + k;
    let k2 = mark_text('r', result) + (seq![' '] + r);
    let k1 = mark_text('f', func) + (k2);
    assert(typed_anchor_text(a) + k == "func_output"@ + k1) by {
        let p1 = "func_output"@;
        let p2 = mark_text('f', func);
        let p3 = mark_text('r', result);
        let p4 = seq![' '];
        let p5 = range_text(start as nat, (start + len) as nat);
        lemma_joined(p1, p2 + (p3 + (p4 + p5)), k);
        lemma_joined(p2, p3 + (p4 + p5), k);
        lemma_joined(p3, p4 + p5, k);
        lemma_joined(p4, p5, k);
    }
    assert(mark_text('f', func)[0] == ' ');
    assert(k1[0] == ' ');
    lemma_word(l, "func_output"@, k1);
    let l1 = get_ident(l)->Ok_0.1;
    assert(mark_text('r', result)[0] == ' ');
    assert(k2[0] == ' ');
    lemma_mark(l1, 'f', func, k2);
    let l2 = get_mark(l1, 'f')->Ok_0.1;
    lemma_one(l2, 'r', result, start as u64, len as u64, u16::MAX as u64, "range out of u16"@, k);
    }
}

/// Anchors of this kind are read back.
proof fn lemma_storage_anchor(l: LexView, storage: StorageId, ty: IRTypeId, addr_start: u64, addr_len: u64, k: Seq<char>)
    requires
        addr_start + addr_len <= u64::MAX,
        l.skipped().rest == typed_anchor_text(
            TypedAnchor::Storage { storage, ty, addr_start, addr_len },
        ) + k,
    ensures
        reads(get_typed_anchor(l), (TypedAnchor::Storage { storage, ty, addr_start, addr_len }), k),
{
    let a = TypedAnchor::Storage { storage, ty, addr_start, addr_len };
    assert(reads(get_typed_anchor(l), a, k)) by {
    reveal(typed_anchor_text);
    reveal(get_typed_anchor);
    lemma_typed_anchor_words();
    let r = range_text(addr_start as nat, (addr_start + addr_len) as nat) + k;
    let k2 = mark_text('T', ty.0) + (seq![' '] + r);
    let k1 = mark_text('S', storage.0) + (k2);
    assert(typed_anchor_text(a) + k == "storage"@ + k1) by {
        let p1 = "storage"@;
        let p2 = mark_text('S', storage.0);
        let p3 = mark_text('T', ty.0);
        let p4 = seq![' '];
        let p5 = range_text(addr_start as nat, (addr_start + addr_len) as nat);
        lemma_joined(p1, p2 + (p3 + (p4 + p5)), k);
        lemma_joined(p2, p3 + (p4 + p5), k);
        lemma_joined(p3, p4 + p5, k);
        lemma_joined(p4, p5, k);
    }
    assert(mark_text('S', storage.0)[0] == ' ');
    assert(k1[0] == ' ');
    lemma_word(l, "storage"@, k1);
    let l1 = get_ident(l)->Ok_0.1;
    assert(mark_text('T', ty.0)[0] == ' ');
    assert(k2[0] == ' ');
    lemma_mark(l1, 'S', storage.0, k2);
    let l2 = get_mark(l1, 'S')->Ok_0.1;
    lemma_one(l2, 'T', ty.0, addr_start, addr_len, u64::MAX, Seq::empty(), k);
    }
}

/// An anchor is read back.
proof fn lemma_typed_anchor(l: LexView, a: TypedAnchor, k: Seq<char>)
    requires
        a.fits(),
        l.skipped().rest == typed_anchor_text(a) + k,
    ensures
        reads(get_typed_anchor(l), a, k),
{
    match a {
        TypedAnchor::Input { param, start, len } => {
            lemma_input_anchor(l, param, start, len, k);
        },
        TypedAnchor::BlockInput { block, param, start, len } => {
            lemma_block_input_anchor(l, block, param, start, len, k);
        },
        TypedAnchor::FuncInput { func, param, start, len } => {
            lemma_func_input_anchor(l, func, param, start, len, k);
        },
        TypedAnchor::Output { out, start, len } => {
            lemma_output_anchor(l, out, start, len, k);
        },
        TypedAnchor::FuncOutput { func, result, start, len } => {
            lemma_func_output_anchor(l, func, result, start, len, k);
        },
        TypedAnchor::Storage { storage, ty, addr_start, addr_len } => {
            lemma_storage_anchor(l, storage, ty, addr_start, addr_len, k);
        },
    }
}

// ---------------------------------------------------------------------------
// Regions
// ---------------------------------------------------------------------------

/// An entry.
pub open spec fn typed_entry_text(e: TypedEntryView) -> Seq<char> {
    typed_anchor_text(e.anchor) + (seq![' ', '-', '>', ' '] + ids_text(e.regions))
}

/// The entries from entry `i` on, a line for each.
pub open spec fn typed_entry_lines(es: Seq<TypedEntryView>, i: int) -> Seq<char>
    decreases es.len() - i,
{
    if i >= es.len() {
        Seq::empty()
    } else {
        seq![' ', ' '] + (typed_entry_text(es[i]) + (seq!['\n'] + typed_entry_lines(es, i + 1)))
    }
}

/// The section on regions.
pub open spec fn typed_regions_text(es: Seq<TypedEntryView>) -> Seq<char> {
    "typed_regions"@ + (seq![' ', '{', '\n'] + (typed_entry_lines(es, 0) + seq!['}', '\n']))
}

/// Whether an entry can be read back: it has regions, and its range ends at a
/// number that fits.
pub open spec fn typed_entry_writable(e: TypedEntryView) -> bool {
    &&& e.anchor.fits()
    &&& e.regions.len() > 0
    &&& ascending(e.regions)
}

/// Whether entries can be read back.
pub open spec fn typed_entry_all_writable(es: Seq<TypedEntryView>) -> bool {
    forall|i: int| 0 <= i < es.len() ==> typed_entry_writable(#[trigger] es[i])
}

/// An entry.
pub open spec fn get_typed_entry(l: LexView) -> Parsed<TypedEntryView> {
    match get_typed_anchor(l) {
        Err(e) => Err(e),
        Ok((anchor, l)) => match get_char(l, '-') {
            Err(e) => Err(e),
            Ok((_, l)) => match get_char(l, '>') {
                Err(e) => Err(e),
                Ok((_, l)) => match get_ids(l) {
                    Err(e) => Err(e),
                    Ok((regions, l)) => Ok((TypedEntryView { anchor, regions }, l)),
                },
            },
        },
    }
}

/// The rest of the entries of a section, up to its closing brace.
pub open spec fn get_typed_entries(l: LexView, so_far: Seq<TypedEntryView>) -> Parsed<Seq<TypedEntryView>>
    decreases l.rest.len(),
{
    let (end, l1) = try_char(l, '}');
    if end {
        Ok((so_far, l1))
    } else {
        match get_typed_entry(l1) {
            Err(e) => Err(e),
            Ok((e, l2)) => {
                proof {
                    broadcast use group_shrinks;

                    lemma_typed_entry_shrinks(l1);
                }
                get_typed_entries(l2, so_far.push(e))
            },
        }
    }
}

/// An entry ends further on than it starts.
pub proof fn lemma_typed_entry_shrinks(l: LexView)
    ensures
        get_typed_entry(l) matches Ok((_, m)) ==> m.rest.len() < l.rest.len(),
{
    broadcast use group_shrinks;

    lemma_typed_anchor_shrinks(l);
}

/// The entries of a section end further on than they start.
pub proof fn lemma_typed_entries_shrinks(l: LexView, so_far: Seq<TypedEntryView>)
    ensures
        get_typed_entries(l, so_far) matches Ok((_, m)) ==> m.rest.len() < l.rest.len(),
    decreases l.rest.len(),
{
    broadcast use group_shrinks;

    let (end, l1) = try_char(l, '}');
    if !end {
        lemma_typed_entry_shrinks(l1);
        match get_typed_entry(l1) {
            Err(_) => {},
            Ok((e, l2)) => {
                lemma_typed_entries_shrinks(l2, so_far.push(e));
            },
        }
    }
}

fn put_typed_entry(w: &mut String, e: &TypedRegionEntry)
    requires
        e.anchor.fits(),
    ensures
        final(w)@ == old(w)@ + typed_entry_text(e@),
{
    broadcast use lemma_joined;

    put_typed_anchor(w, &e.anchor);
    let ghost b = w@;
    w.push_str(" -> ");
    proof {
        reveal_strlit(" -> ");
        assert(" -> "@ =~= seq![' ', '-', '>', ' ']);
    }
    put_ids(w, &e.regions);
}

impl WriteText for TypedRegionTable {
    open spec fn can_write(&self) -> bool {
        forall|i: int| 0 <= i < self@.entries.len() ==> (#[trigger] self@.entries[i]).anchor.fits()
    }

    open spec fn text(&self) -> Seq<char> {
        typed_regions_text(self@.entries)
    }

    fn write_text(&self, w: &mut String) {
        let ghost es = self@.entries;
        let ghost z = w@;
        w.push_str("typed_regions");
        w.push_str(" {\n");
        proof {
            reveal_strlit(" {\n");
            assert(" {\n"@ =~= seq![' ', '{', '\n']);
        }
        let ghost before = w@;
        let mut i: usize = 0;
        while i < self.entries.len()
            invariant
                i <= self.entries@.len(),
                es == typed_entry_views(self.entries@),
                forall|j: int| 0 <= j < es.len() ==> (#[trigger] es[j]).anchor.fits(),
                w@ + typed_entry_lines(es, i as int) == before + typed_entry_lines(es, 0),
            decreases self.entries@.len() - i,
        {
            broadcast use lemma_joined;

            assert(es[i as int] == self.entries@[i as int]@);
            let ghost sofar = w@;
            w.push(' ');
            w.push(' ');
            assert(w@ =~= sofar + seq![' ', ' ']);
            put_typed_entry(w, &self.entries[i]);
            let ghost mid = w@;
            w.push('\n');
            assert(w@ =~= mid + seq!['\n']);
            i += 1;
        }
        assert(w@ + typed_entry_lines(es, i as int) =~= w@);
        let ghost last = w@;
        w.push_str("}\n");
        proof {
            reveal_strlit("}\n");
            assert("}\n"@ =~= seq!['}', '\n']);
            let a = "typed_regions"@;
            let b = seq![' ', '{', '\n'];
            let c = typed_entry_lines(es, 0);
            let d = seq!['}', '\n'];
            assert(w@ == z + a + b + c + d);
            lemma_joined(z + a + b, c, d);
            lemma_joined(z + a, b, c + d);
            lemma_joined(z, a, b + (c + d));
        }
    }
}

fn read_typed_entry(lex: &mut Lexer) -> (r: Result<TypedRegionEntry, ParseError>)
    ensures
        gives_view(r, final(lex)@, get_typed_entry(old(lex)@)),
{
    let anchor: TypedAnchor = match read_typed_anchor(lex) {
        Ok(x) => x,
        Err(e) => {
            return Err(e);
        },
    };
    match lex.expect('-') {
        Ok(_) => {},
        Err(e) => {
            return Err(e);
        },
    }
    match lex.expect('>') {
        Ok(_) => {},
        Err(e) => {
            return Err(e);
        },
    }
    match read_ids(lex) {
        Ok(regions) => Ok(TypedRegionEntry { anchor, regions }),
        Err(e) => Err(e),
    }
}

/// Read the entries of a section behind its opening brace.
pub fn parse_typed_region_entries(lex: &mut Lexer) -> (r: Result<TypedRegionTable, ParseError>)
    ensures
        match get_typed_entries(old(lex)@, Seq::empty()) {
            Ok((es, m)) => r matches Ok(t) && t@ == (TypedTableView {
                entries: es,
                names: Seq::empty(),
            }) && final(lex)@ == m,
            Err(e) => r matches Err(x) && x@ == e,
        },
{
    let ghost whole = get_typed_entries(lex@, Seq::empty());
    let mut entries: Vec<TypedRegionEntry> = Vec::new();
    assert(typed_entry_views(entries@) =~= Seq::empty());
    loop
        invariant
            whole == get_typed_entries(old(lex)@, Seq::empty()),
            whole == get_typed_entries(lex@, typed_entry_views(entries@)),
        decreases lex@.rest.len(),
    {
        broadcast use group_shrinks;

        if lex.take('}') {
            return Ok(TypedRegionTable { entries, names: RegionNames::new() });
        }
        proof {
            lemma_typed_entry_shrinks(lex@);
        }
        match read_typed_entry(lex) {
            Ok(e) => {
                let ghost before = entries@;
                let ghost v = e@;
                entries.push(e);
                assert(typed_entry_views(entries@) =~= typed_entry_views(before).push(v));
            },
            Err(e) => {
                return Err(e);
            },
        }
    }
}

/// An entry is read back.
proof fn lemma_typed_entry(l: LexView, e: TypedEntryView, k: Seq<char>)
    requires
        typed_entry_writable(e),
        l.skipped().rest == typed_entry_text(e) + k,
    ensures
        reads(get_typed_entry(l), e, k),
{
    let k3 = ids_text(e.regions) + k;
    let k2 = seq!['>'] + (seq![' '] + k3);
    let k1 = seq!['-'] + k2;
    let k0 = seq![' '] + k1;
    let sep = seq![' ', '-', '>', ' '];
    assert(typed_entry_text(e) + k == typed_anchor_text(e.anchor) + (sep + k3)) by {
        broadcast use lemma_joined;

    }
    assert(sep + k3 =~= k0);
    assert(k0[0] == ' ');
    lemma_typed_anchor(l, e.anchor, k0);
    let l1 = get_typed_anchor(l)->Ok_0.1;
    assert(k1[0] == '-');
    lemma_past_blank(l1, ' ', k1);
    lemma_char(l1, '-', k2);
    let l2 = get_char(l1, '-')->Ok_0.1;
    assert(k2[0] == '>');
    lemma_at_token(l2);
    lemma_char(l2, '>', seq![' '] + k3);
    let l3 = get_char(l2, '>')->Ok_0.1;
    assert(k3[0] == '{');
    lemma_past_blank(l3, ' ', k3);
    lemma_ids(l3, e.regions, k);
}

/// The entries of a section from entry `i` on are read back.
#[verifier::rlimit(60)]
proof fn lemma_typed_entries(l: LexView, es: Seq<TypedEntryView>, i: int, lead: Seq<char>, k: Seq<char>)
    requires
        0 <= i <= es.len(),
        typed_entry_all_writable(es),
        forall|j: int| 0 <= j < lead.len() ==> is_blank(#[trigger] lead[j]),
        l.rest == lead + (typed_entry_lines(es, i) + (seq!['}'] + k)),
    ensures
        reads(get_typed_entries(l, es.take(i)), es, k),
    decreases es.len() - i,
{
    let close = seq!['}'] + k;
    if i == es.len() {
        assert(typed_entry_lines(es, i) + close =~= close);
        assert(close[0] == '}');
        lemma_past_blanks(l, lead, close);
        lemma_char(l, '}', k);
        assert(es.take(i) =~= es);
    } else {
        let more = typed_entry_lines(es, i + 1) + close;
        let k1 = seq!['\n'] + more;
        let t = typed_entry_text(es[i]) + k1;
        assert(typed_entry_lines(es, i) + close == seq![' ', ' '] + t) by {
            let x = typed_entry_text(es[i]);
            let y = typed_entry_lines(es, i + 1);
            lemma_joined(seq![' ', ' '], x + (seq!['\n'] + y), close);
            lemma_joined(x, seq!['\n'] + y, close);
            lemma_joined(seq!['\n'], y, close);
        }
        lemma_joined(lead, seq![' ', ' '], t);
        let blanks = lead + seq![' ', ' '];
        assert forall|j: int| 0 <= j < blanks.len() implies is_blank(#[trigger] blanks[j]) by {
            if j < lead.len() {
                assert(blanks[j] == lead[j]);
            }
        }
        assert(at_token(t) && t[0] != '}') by {
            let x = typed_anchor_text(es[i].anchor);
            let y = seq![' ', '-', '>', ' '] + ids_text(es[i].regions);
            lemma_joined(x, y, k1);
            lemma_typed_anchor_starts(es[i].anchor, y + k1);
        }
        lemma_past_blanks(l, blanks, t);
        let l1 = try_char(l, '}').1;
        lemma_at_token(l1);
        lemma_typed_entry(l1, es[i], k1);
        let l2 = get_typed_entry(l1)->Ok_0.1;
        lemma_typed_entries(l2, es, i + 1, seq!['\n'], k);
        assert(es.take(i + 1) =~= es.take(i).push(es[i]));
    }
}

/// The section on regions is read back behind its word.
pub proof fn lemma_typed_regions(l: LexView, es: Seq<TypedEntryView>, k: Seq<char>)
    requires
        typed_entry_all_writable(es),
        l.rest == seq![' ', '{', '\n'] + (typed_entry_lines(es, 0) + (seq!['}'] + k)),
    ensures
        get_char(l, '{') is Ok,
        reads(get_typed_entries(get_char(l, '{')->Ok_0.1, Seq::empty()), es, k),
{
    let t = typed_entry_lines(es, 0) + (seq!['}'] + k);
    let s = seq!['\n'] + t;
    assert(l.rest =~= seq![' '] + (seq!['{'] + s));
    assert((seq!['{'] + s)[0] == '{');
    lemma_past_blank(l, ' ', seq!['{'] + s);
    lemma_char(l, '{', s);
    let m = get_char(l, '{')->Ok_0.1;
    lemma_typed_entries(m, es, 0, seq!['\n'], k);
    assert(es.take(0) =~= Seq::empty());
}

// ---------------------------------------------------------------------------
// Gadgets
// ---------------------------------------------------------------------------

/// A constant word: its low half, and its high half where that is not zero.
pub open spec fn word_text(c: Constant) -> Seq<char> {
    seq!['<'] + (dec(c.lo as nat) + (if c.hi == 0 {
        seq!['>']
    } else {
        seq![':'] + (dec(c.hi as nat) + seq!['>'])
    }))
}

/// Constant words from word `i` on, each but the first behind a comma.
pub open spec fn word_items(s: Seq<Constant>, i: int) -> Seq<char>
    decreases s.len() - i,
{
    if i >= s.len() {
        Seq::empty()
    } else {
        (if i == 0 {
            Seq::empty()
        } else {
            seq![',', ' ']
        }) + (word_text(s[i]) + word_items(s, i + 1))
    }
}

/// A source.
#[verifier::opaque]
pub open spec fn typed_aux_text(a: TypedAuxView) -> Seq<char> {
    match a {
        TypedAuxView::InputRange { param, start } => "input"@ + (mark_text('p', param) + (
        seq![' ', '['] + (dec(start as nat) + seq![']']))),
        TypedAuxView::Const(words) => "const"@ + (seq![' '] + word_items(words, 0)),
        TypedAuxView::Rng(name) => "rng"@ + (seq![' '] + quoted(name)),
    }
}

/// A constant word.
pub open spec fn get_word_const(l: LexView) -> Parsed<Constant> {
    match get_char(l, '<') {
        Err(e) => Err(e),
        Ok((_, l)) => match get_u128(l) {
            Err(e) => Err(e),
            Ok((lo, l)) => {
                let (two, l1) = try_char(l, ':');
                if two {
                    match get_u128(l1) {
                        Err(e) => Err(e),
                        Ok((hi, l2)) => match get_char(l2, '>') {
                            Err(e) => Err(e),
                            Ok((_, l3)) => Ok((Constant { hi, lo }, l3)),
                        },
                    }
                } else {
                    match get_char(l1, '>') {
                        Err(e) => Err(e),
                        Ok((_, l2)) => Ok((Constant { hi: 0, lo }, l2)),
                    }
                }
            },
        },
    }
}

/// The rest of the words of a source. A comma belongs to them only where
/// another word follows.
pub open spec fn get_words(l: LexView, so_far: Seq<Constant>) -> Parsed<Seq<Constant>>
    decreases l.rest.len(),
{
    let l = l.skipped();
    if l.at('<') {
        match get_word_const(l) {
            Err(e) => Err(e),
            Ok((c, m)) => {
                proof {
                    broadcast use group_shrinks;

                    lemma_word_const_shrinks(l);
                }
                get_words(m, so_far.push(c))
            },
        }
    } else {
        let (more, m) = try_comma(l, '<');
        if more {
            proof {
                broadcast use group_shrinks;

                lemma_try_comma_shrinks(l, '<');
            }
            get_words(m, so_far)
        } else {
            Ok((so_far, m))
        }
    }
}

/// A source.
#[verifier::opaque]
pub open spec fn get_typed_aux(l: LexView) -> Parsed<TypedAuxView> {
    match get_ident(l) {
        Err(e) => Err(e),
        Ok((kind, l)) => if kind == "input"@ {
            match get_mark(l, 'p') {
                Err(e) => Err(e),
                Ok((param, l)) => match get_char(l, '[') {
                    Err(e) => Err(e),
                    Ok((_, l)) => match get_u64(l) {
                        Err(e) => Err(e),
                        Ok((start, l)) => match get_char(l, ']') {
                            Err(e) => Err(e),
                            Ok((_, l)) => if start > u16::MAX {
                                Err(ErrorView::InvalidInt("range out of u16"@))
                            } else {
                                Ok((TypedAuxView::InputRange { param, start: start as u16 }, l))
                            },
                        },
                    },
                },
            }
        } else if kind == "const"@ {
            match get_words(l, Seq::empty()) {
                Err(e) => Err(e),
                Ok((words, l)) => Ok((TypedAuxView::Const(words), l)),
            }
        } else if kind == "rng"@ {
            match get_string(l) {
                Err(e) => Err(e),
                Ok((name, l)) => Ok((TypedAuxView::Rng(name), l)),
            }
        } else {
            Err(ErrorView::UnknownDirective(kind))
        },
    }
}

/// A constant word ends further on than it starts.
pub proof fn lemma_word_const_shrinks(l: LexView)
    ensures
        get_word_const(l) matches Ok((_, m)) ==> m.rest.len() < l.rest.len(),
{
    broadcast use group_shrinks;

}

/// A comma with what follows it ends further on than it starts.
pub proof fn lemma_try_comma_shrinks(l: LexView, c: char)
    ensures
        try_comma(l, c).1.rest.len() <= l.rest.len(),
        try_comma(l, c).0 ==> try_comma(l, c).1.rest.len() < l.rest.len(),
{
    broadcast use group_shrinks;

    let m = l.skipped();
    if m.at(',') {
        assert(m.advanced().rest.len() < m.rest.len());
    }
}

proof fn lemma_words_shrinks(l: LexView, so_far: Seq<Constant>)
    ensures
        get_words(l, so_far) matches Ok((_, m)) ==> m.rest.len() <= l.rest.len(),
    decreases l.rest.len(),
{
    broadcast use group_shrinks;

    let s = l.skipped();
    if s.at('<') {
        lemma_word_const_shrinks(s);
        match get_word_const(s) {
            Err(_) => {},
            Ok((c, m)) => {
                lemma_words_shrinks(m, so_far.push(c));
            },
        }
    } else {
        lemma_try_comma_shrinks(s, '<');
        let (more, m) = try_comma(s, '<');
        if more {
            lemma_words_shrinks(m, so_far);
        }
    }
}

/// A source ends further on than it starts.
pub proof fn lemma_typed_aux_shrinks(l: LexView)
    ensures
        get_typed_aux(l) matches Ok((_, m)) ==> m.rest.len() < l.rest.len(),
{
    broadcast use group_shrinks;

    reveal(get_typed_aux);
    assert forall|x: LexView, c: char| #[trigger] get_mark(x, c) matches Ok((_, m)) ==> m.rest.len()
        < x.rest.len() by {
        lemma_mark_shrinks(x, c);
    }
    assert forall|x: LexView| #[trigger] get_words(x, Seq::empty()) matches Ok((_, m))
        ==> m.rest.len() <= x.rest.len() by {
        lemma_words_shrinks(x, Seq::empty());
    }
}

fn put_word(w: &mut String, c: &Constant)
    ensures
        final(w)@ == old(w)@ + word_text(*c),
{
    w.push('<');
    push_dec(w, c.lo);
    if c.hi != 0 {
        w.push(':');
        push_dec(w, c.hi);
    }
    w.push('>');
    assert(w@ =~= old(w)@ + word_text(*c));
}

fn put_words(w: &mut String, s: &Vec<Constant>)
    ensures
        final(w)@ == old(w)@ + word_items(s@, 0),
{
    let ghost before = w@;
    let mut i: usize = 0;
    while i < s.len()
        invariant
            i <= s@.len(),
            w@ + word_items(s@, i as int) == before + word_items(s@, 0),
        decreases s@.len() - i,
    {
        let ghost sofar = w@;
        let ghost more = word_items(s@, i + 1);
        if i > 0 {
            w.push(',');
            w.push(' ');
        }
        let ghost sep: Seq<char> = if i == 0 {
            Seq::empty()
        } else {
            seq![',', ' ']
        };
        assert(w@ =~= sofar + sep);
        put_word(w, &s[i]);
        proof {
            let t = word_text(s@[i as int]);
            lemma_joined(sofar + sep, t, more);
            lemma_joined(sofar, sep, t + more);
        }
        i += 1;
    }
    assert(w@ + word_items(s@, i as int) =~= w@);
}

fn put_typed_aux(w: &mut String, a: &TypedAuxSource)
    ensures
        final(w)@ == old(w)@ + typed_aux_text(a@),
{
    reveal(typed_aux_text);
    let ghost z = w@;
    match a {
        TypedAuxSource::InputRange { param, start } => {
            w.push_str("input");
            put_mark(w, 'p', *param);
            w.push(' ');
            w.push('[');
            push_dec(w, *start as u128);
            w.push(']');
            assert(w@ =~= z + typed_aux_text(a@));
        },
        TypedAuxSource::Const(words) => {
            w.push_str("const");
            w.push(' ');
            put_words(w, words);
            proof {
                let p1 = "const"@;
                let p2 = seq![' '];
                let p3 = word_items(words@, 0);
                assert(w@ =~= z + p1 + p2 + p3);
                lemma_joined(z + p1, p2, p3);
                lemma_joined(z, p1, p2 + p3);
            }
        },
        TypedAuxSource::Rng(name) => {
            w.push_str("rng");
            w.push(' ');
            put_name(w, name);
            proof {
                let p1 = "rng"@;
                let p2 = seq![' '];
                let p3 = quoted(name@);
                assert(w@ =~= z + p1 + p2 + p3);
                lemma_joined(z + p1, p2, p3);
                lemma_joined(z, p1, p2 + p3);
            }
        },
    }
}

fn read_word_const(lex: &mut Lexer) -> (r: Result<Constant, ParseError>)
    ensures
        gives(r, final(lex)@, get_word_const(old(lex)@)),
{
    match lex.expect('<') {
        Ok(_) => {},
        Err(e) => {
            return Err(e);
        },
    }
    let lo: u128 = match lex.read_u128() {
        Ok(x) => x,
        Err(e) => {
            return Err(e);
        },
    };
    let mut hi: u128 = 0;
    if lex.take(':') {
        hi =
        match lex.read_u128() {
            Ok(x) => x,
            Err(e) => {
                return Err(e);
            },
        };
    }
    match lex.expect('>') {
        Ok(_) => Ok(Constant { hi, lo }),
        Err(e) => Err(e),
    }
}

fn read_words(lex: &mut Lexer) -> (r: Result<Vec<Constant>, ParseError>)
    ensures
        gives_view(r, final(lex)@, get_words(old(lex)@, Seq::empty())),
{
    let ghost whole = get_words(lex@, Seq::empty());
    let mut out: Vec<Constant> = Vec::new();
    loop
        invariant
            whole == get_words(old(lex)@, Seq::empty()),
            whole == get_words(lex@, out@),
        decreases lex@.rest.len(),
    {
        broadcast use group_shrinks;

        if lex.peek_is('<') {
            proof {
                lemma_word_const_shrinks(lex@);
            }
            match read_word_const(lex) {
                Ok(c) => {
                    out.push(c);
                },
                Err(e) => {
                    return Err(e);
                },
            }
        } else {
            proof {
                lemma_try_comma_shrinks(lex@, '<');
            }
            if !lex.try_comma_before('<') {
                return Ok(out);
            }
        }
    }
}

fn read_typed_aux(lex: &mut Lexer) -> (r: Result<TypedAuxSource, ParseError>)
    ensures
        gives_view(r, final(lex)@, get_typed_aux(old(lex)@)),
{
    reveal(get_typed_aux);
    let kind: String = match lex.read_ident() {
        Ok(x) => x,
        Err(e) => {
            return Err(e);
        },
    };
    if is_word(&kind, "input") {
        let param: u32 = match read_mark(lex, 'p') {
            Ok(x) => x,
            Err(e) => {
                return Err(e);
            },
        };
        match lex.expect('[') {
            Ok(_) => {},
            Err(e) => {
                return Err(e);
            },
        }
        let start: u64 = match lex.read_u64() {
            Ok(x) => x,
            Err(e) => {
                return Err(e);
            },
        };
        match lex.expect(']') {
            Ok(_) => {},
            Err(e) => {
                return Err(e);
            },
        }
        if start > u16::MAX as u64 {
            Err(ParseError::InvalidInt("range out of u16".to_owned()))
        } else {
            Ok(TypedAuxSource::InputRange { param, start: start as u16 })
        }
    } else if is_word(&kind, "const") {
        match read_words(lex) {
            Ok(words) => Ok(TypedAuxSource::Const(words)),
            Err(e) => Err(e),
        }
    } else if is_word(&kind, "rng") {
        match lex.read_string() {
            Ok(name) => Ok(TypedAuxSource::Rng(name)),
            Err(e) => Err(e),
        }
    } else {
        Err(ParseError::UnknownDirective(kind))
    }
}

/// The words of sources are words, and no two are the same.
proof fn lemma_typed_aux_words()
    ensures
        is_name("input"@),
        is_name("const"@),
        is_name("rng"@),
        "input"@[0] == 'i',
        "const"@[0] == 'c',
        "rng"@[0] == 'r',
        "input"@ != "const"@,
        "input"@ != "rng"@,
        "const"@ != "rng"@,
{
    reveal_strlit("input");
    reveal_strlit("const");
    reveal_strlit("rng");
}

proof fn lemma_typed_aux_starts(a: TypedAuxView, k: Seq<char>)
    ensures
        at_token(typed_aux_text(a) + k),
        (typed_aux_text(a) + k).len() > 0,
        (typed_aux_text(a) + k)[0] != ']',
        (typed_aux_text(a) + k)[0] != '<',
{
    reveal(typed_aux_text);
    lemma_typed_aux_words();
    let t = typed_aux_text(a);
    match a {
        TypedAuxView::InputRange { .. } => {
            assert(t[0] == 'i');
        },
        TypedAuxView::Const(_) => {
            assert(t[0] == 'c');
        },
        TypedAuxView::Rng(_) => {
            assert(t[0] == 'r');
        },
    }
    assert((t + k)[0] == t[0]);
}

/// Whether the words of a source end before a text: it starts with a closing
/// bracket, or with a comma, a blank and something that is no word.
spec fn words_end(t: Seq<char>) -> bool {
    &&& t.len() > 0
    &&& t[0] == ']' || (t[0] == ',' && t.len() > 2 && t[1] == ' ' && !is_blank(t[2]) && t[2] != ';'
        && t[2] != '<')
}

/// A constant word is read back.
proof fn lemma_word_const(l: LexView, c: Constant, k: Seq<char>)
    requires
        l.skipped().rest == word_text(c) + k,
    ensures
        reads(get_word_const(l), c, k),
{
    let close = seq!['>'] + k;
    let after = if c.hi == 0 {
        close
    } else {
        seq![':'] + (dec(c.hi as nat) + close)
    };
    let k0 = dec(c.lo as nat) + after;
    assert(word_text(c) + k == seq!['<'] + k0) by {
        broadcast use lemma_joined;

    }
    lemma_char(l, '<', k0);
    let l1 = get_char(l, '<')->Ok_0.1;
    lemma_digits(c.lo as nat, 10);
    assert(k0[0] == dec(c.lo as nat)[0]);
    lemma_at_token(l1);
    assert(close[0] == '>');
    assert(after[0] == '>' || after[0] == ':');
    lemma_dec(l1, c.lo as nat, u128::MAX as nat, after);
    let l2 = get_u128(l1)->Ok_0.1;
    lemma_at_token(l2);
    if c.hi == 0 {
        let l3 = try_char(l2, ':').1;
        assert(l3 == l2);
        lemma_char(l3, '>', k);
    } else {
        let h = dec(c.hi as nat) + close;
        lemma_char(l2, ':', h);
        let l3 = try_char(l2, ':').1;
        lemma_digits(c.hi as nat, 10);
        assert(h[0] == dec(c.hi as nat)[0]);
        lemma_at_token(l3);
        lemma_dec(l3, c.hi as nat, u128::MAX as nat, close);
        let l4 = get_u128(l3)->Ok_0.1;
        lemma_at_token(l4);
        lemma_char(l4, '>', k);
    }
}

/// The words of a source are read back from word `i` on, which stands behind
/// a comma unless it is the first.
#[verifier::rlimit(60)]
proof fn lemma_words(l: LexView, s: Seq<Constant>, i: int, k: Seq<char>)
    requires
        0 <= i <= s.len(),
        words_end(k),
        l.skipped().rest == word_items(s, i) + k,
    ensures
        reads(get_words(l, s.take(i)), s, k),
    decreases s.len() - i,
{
    let x = l.skipped();
    if i == s.len() {
        assert(x.rest =~= k);
        lemma_at_token(x);
        if k[0] == ',' {
            let m = x.advanced();
            let t = k.skip(2);
            assert(m.rest =~= seq![' '] + t);
            assert(t[0] == k[2]);
            lemma_past_blank(m, ' ', t);
        }
        assert(s.take(i) =~= s);
    } else {
        let more = word_items(s, i + 1) + k;
        let t = word_text(s[i]) + more;
        assert(word_text(s[i])[0] == '<');
        assert(t[0] == '<');
        let y = if i == 0 {
            assert(Seq::<char>::empty() + (word_text(s[i]) + word_items(s, i + 1)) =~= word_text(s[i])
                + word_items(s, i + 1));
            lemma_joined(word_text(s[i]), word_items(s, i + 1), k);
            assert(x.rest == t);
            l
        } else {
            let sep = seq![',', ' '];
            lemma_joined(sep, word_text(s[i]) + word_items(s, i + 1), k);
            lemma_joined(word_text(s[i]), word_items(s, i + 1), k);
            assert(x.rest == sep + t);
            assert(x.rest =~= seq![','] + (seq![' '] + t));
            assert(x.rest[0] == ',');
            lemma_at_token(x);
            let m = x.advanced();
            assert(m.rest =~= seq![' '] + t);
            lemma_past_blank(m, ' ', t);
            assert(try_comma(x, '<') == (true, m.skipped()));
            assert(get_words(l, s.take(i)) == get_words(m.skipped(), s.take(i)));
            lemma_at_token(m.skipped());
            m.skipped()
        };
        assert(y.skipped().rest == t);
        lemma_at_token(y.skipped());
        lemma_word_const(y.skipped(), s[i], more);
        let z = get_word_const(y.skipped())->Ok_0.1;
        assert(at_token(more)) by {
            if i + 1 < s.len() {
                assert(more[0] == ',');
            } else {
                assert(more =~= k);
            }
        }
        lemma_at_token(z);
        lemma_words(z, s, i + 1, k);
        assert(s.take(i + 1) =~= s.take(i).push(s[i]));
        assert(get_words(y, s.take(i)) == get_words(z, s.take(i + 1)));
    }
}

/// A source is read back.
#[verifier::rlimit(60)]
proof fn lemma_typed_aux(l: LexView, a: TypedAuxView, k: Seq<char>)
    requires
        words_end(k),
        l.skipped().rest == typed_aux_text(a) + k,
    ensures
        reads(get_typed_aux(l), a, k),
{
    reveal(typed_aux_text);
    reveal(get_typed_aux);
    lemma_typed_aux_words();
    match a {
        TypedAuxView::InputRange { param, start } => {
            let k4 = seq![']'] + k;
            let k3 = dec(start as nat) + k4;
            let k2 = seq![' ', '['] + k3;
            let k1 = mark_text('p', param) + k2;
            assert(typed_aux_text(a) + k == "input"@ + k1) by {
                broadcast use lemma_joined;

            }
            assert(mark_text('p', param)[0] == ' ');
            assert(k1[0] == ' ');
            lemma_word(l, "input"@, k1);
            let l1 = get_ident(l)->Ok_0.1;
            assert(k2[0] == ' ');
            lemma_mark(l1, 'p', param, k2);
            let l2 = get_mark(l1, 'p')->Ok_0.1;
            assert(k2 =~= seq![' '] + (seq!['['] + k3));
            assert((seq!['['] + k3)[0] == '[');
            lemma_past_blank(l2, ' ', seq!['['] + k3);
            lemma_char(l2, '[', k3);
            let l3 = get_char(l2, '[')->Ok_0.1;
            lemma_digits(start as nat, 10);
            assert(k3[0] == dec(start as nat)[0]);
            lemma_at_token(l3);
            assert(k4[0] == ']');
            lemma_dec(l3, start as nat, u64::MAX as nat, k4);
            let l4 = get_u64(l3)->Ok_0.1;
            lemma_at_token(l4);
            lemma_char(l4, ']', k);
        },
        TypedAuxView::Const(words) => {
            let r = word_items(words, 0) + k;
            let k1 = seq![' '] + r;
            assert(typed_aux_text(a) + k == "const"@ + k1) by {
                broadcast use lemma_joined;

            }
            assert(k1[0] == ' ');
            lemma_word(l, "const"@, k1);
            let l1 = get_ident(l)->Ok_0.1;
            assert(at_token(r)) by {
                if words.len() > 0 {
                    assert(word_items(words, 0)[0] == '<');
                    assert(r[0] == '<');
                } else {
                    assert(r =~= k);
                }
            }
            lemma_past_blank(l1, ' ', r);
            lemma_words(l1, words, 0, k);
            assert(words.take(0) =~= Seq::empty());
        },
        TypedAuxView::Rng(name) => {
            let r = quoted(name) + k;
            let k1 = seq![' '] + r;
            assert(typed_aux_text(a) + k == "rng"@ + k1) by {
                broadcast use lemma_joined;

            }
            assert(k1[0] == ' ');
            lemma_word(l, "rng"@, k1);
            let l1 = get_ident(l)->Ok_0.1;
            assert(r[0] == '"');
            lemma_past_blank(l1, ' ', r);
            lemma_quoted(l1, name, k);
        },
    }
}

/// The sources from source `i` on, each but the first behind a comma.
pub open spec fn typed_aux_items(s: Seq<TypedAuxView>, i: int) -> Seq<char>
    decreases s.len() - i,
{
    if i >= s.len() {
        Seq::empty()
    } else {
        (if i == 0 {
            Seq::empty()
        } else {
            seq![',', ' ']
        }) + (typed_aux_text(s[i]) + typed_aux_items(s, i + 1))
    }
}

/// A binding.
pub open spec fn typed_binding_text(b: TypedBindingView) -> Seq<char> {
    "gadget"@ + (seq![' '] + (quoted(b.gadget) + (seq![' '] + ("on"@ + (seq![' '] + (
    selector_text(b.selector) + (seq![' '] + ("aux"@ + (seq!['='] + (seq!['['] + (typed_aux_items(
        b.aux_sources,
        0,
    ) + (seq![']'] + rng_text(b.rng_source)))))))))))))
}

/// The bindings from binding `i` on, a line for each.
pub open spec fn typed_binding_lines(bs: Seq<TypedBindingView>, i: int) -> Seq<char>
    decreases bs.len() - i,
{
    if i >= bs.len() {
        Seq::empty()
    } else {
        seq![' ', ' '] + (typed_binding_text(bs[i]) + (seq!['\n'] + typed_binding_lines(bs, i + 1)))
    }
}

/// The section on gadgets.
pub open spec fn typed_gadgets_text(bs: Seq<TypedBindingView>) -> Seq<char> {
    "typed_gadgets"@ + (seq![' ', '{', '\n'] + (typed_binding_lines(bs, 0) + seq!['}', '\n']))
}

/// Whether a binding can be read back: its selector lists regions in order.
pub open spec fn typed_binding_writable(b: TypedBindingView) -> bool {
    &&& ascending(b.selector.all_of)
    &&& ascending(b.selector.none_of)
}

/// Whether bindings can be read back.
pub open spec fn typed_binding_all_writable(bs: Seq<TypedBindingView>) -> bool {
    forall|i: int| 0 <= i < bs.len() ==> typed_binding_writable(#[trigger] bs[i])
}

/// The rest of the sources of a binding.
pub open spec fn get_typed_aux_items(l: LexView, so_far: Seq<TypedAuxView>) -> Parsed<Seq<TypedAuxView>>
    decreases l.rest.len(),
{
    let (end, l1) = try_char(l, ']');
    if end {
        Ok((so_far, l1))
    } else {
        match get_typed_aux(l1) {
            Err(e) => Err(e),
            Ok((a, l2)) => {
                let (more, l3) = try_char(l2, ',');
                if more {
                    proof {
                        broadcast use group_shrinks;

                        lemma_typed_aux_shrinks(l1);
                    }
                    get_typed_aux_items(l3, so_far.push(a))
                } else {
                    match get_char(l3, ']') {
                        Err(e) => Err(e),
                        Ok((_, l4)) => Ok((so_far.push(a), l4)),
                    }
                }
            },
        }
    }
}

/// The sources of a binding.
pub open spec fn get_typed_aux_list(l: LexView) -> Parsed<Seq<TypedAuxView>> {
    match get_word(l, "aux"@) {
        Err(e) => Err(e),
        Ok((_, l)) => match get_char(l, '=') {
            Err(e) => Err(e),
            Ok((_, l)) => match get_char(l, '[') {
                Err(e) => Err(e),
                Ok((_, l)) => get_typed_aux_items(l, Seq::empty()),
            },
        },
    }
}

/// A binding.
pub open spec fn get_typed_binding(l: LexView) -> Parsed<TypedBindingView> {
    match get_word(l, "gadget"@) {
        Err(e) => Err(e),
        Ok((_, l)) => match get_string(l) {
            Err(e) => Err(e),
            Ok((gadget, l)) => match get_word(l, "on"@) {
                Err(e) => Err(e),
                Ok((_, l)) => match get_selector(l) {
                    Err(e) => Err(e),
                    Ok((selector, l)) => match get_typed_aux_list(l) {
                        Err(e) => Err(e),
                        Ok((aux_sources, l)) => match get_rng_source(l) {
                            Err(e) => Err(e),
                            Ok((rng_source, l)) => Ok(
                                (TypedBindingView { gadget, selector, aux_sources, rng_source }, l),
                            ),
                        },
                    },
                },
            },
        },
    }
}

/// The rest of the bindings of a section, up to its closing brace.
pub open spec fn get_typed_bindings(l: LexView, so_far: Seq<TypedBindingView>) -> Parsed<Seq<TypedBindingView>>
    decreases l.rest.len(),
{
    let (end, l1) = try_char(l, '}');
    if end {
        Ok((so_far, l1))
    } else {
        match get_typed_binding(l1) {
            Err(e) => Err(e),
            Ok((b, l2)) => {
                proof {
                    broadcast use group_shrinks;

                    lemma_typed_binding_shrinks(l1);
                }
                get_typed_bindings(l2, so_far.push(b))
            },
        }
    }
}

proof fn lemma_typed_aux_items_shrinks(l: LexView, so_far: Seq<TypedAuxView>)
    ensures
        get_typed_aux_items(l, so_far) matches Ok((_, m)) ==> m.rest.len() < l.rest.len(),
    decreases l.rest.len(),
{
    broadcast use group_shrinks;

    let (end, l1) = try_char(l, ']');
    if !end {
        lemma_typed_aux_shrinks(l1);
        match get_typed_aux(l1) {
            Err(_) => {},
            Ok((a, l2)) => {
                let (more, l3) = try_char(l2, ',');
                if more {
                    lemma_typed_aux_items_shrinks(l3, so_far.push(a));
                }
            },
        }
    }
}

proof fn lemma_typed_aux_list_shrinks(l: LexView)
    ensures
        get_typed_aux_list(l) matches Ok((_, m)) ==> m.rest.len() < l.rest.len(),
{
    broadcast use group_shrinks;

    assert forall|x: LexView| #[trigger] get_typed_aux_items(x, Seq::empty()) matches Ok((_, m))
        ==> m.rest.len() < x.rest.len() by {
        lemma_typed_aux_items_shrinks(x, Seq::empty());
    }
}

/// A binding ends further on than it starts.
pub proof fn lemma_typed_binding_shrinks(l: LexView)
    ensures
        get_typed_binding(l) matches Ok((_, m)) ==> m.rest.len() < l.rest.len(),
{
    broadcast use group_shrinks;

    assert forall|x: LexView| #[trigger] get_typed_aux_list(x) matches Ok((_, m)) ==> m.rest.len()
        < x.rest.len() by {
        lemma_typed_aux_list_shrinks(x);
    }
    assert forall|x: LexView| #[trigger] get_selector(x) matches Ok((_, m)) ==> m.rest.len()
        < x.rest.len() by {
        lemma_selector_shrinks(x);
    }
    assert forall|x: LexView| #[trigger] get_rng_source(x) matches Ok((_, m)) ==> m.rest.len()
        <= x.rest.len() by {
        lemma_rng_source_shrinks(x);
    }
}

/// The bindings of a section end further on than they start.
pub proof fn lemma_typed_bindings_shrinks(l: LexView, so_far: Seq<TypedBindingView>)
    ensures
        get_typed_bindings(l, so_far) matches Ok((_, m)) ==> m.rest.len() < l.rest.len(),
    decreases l.rest.len(),
{
    broadcast use group_shrinks;

    let (end, l1) = try_char(l, '}');
    if !end {
        lemma_typed_binding_shrinks(l1);
        match get_typed_binding(l1) {
            Err(_) => {},
            Ok((b, l2)) => {
                lemma_typed_bindings_shrinks(l2, so_far.push(b));
            },
        }
    }
}

fn put_typed_aux_items(w: &mut String, s: &Vec<TypedAuxSource>)
    ensures
        final(w)@ == old(w)@ + typed_aux_items(typed_aux_views(s@), 0),
{
    let ghost v = typed_aux_views(s@);
    let ghost before = w@;
    let mut i: usize = 0;
    while i < s.len()
        invariant
            i <= s@.len(),
            v == typed_aux_views(s@),
            w@ + typed_aux_items(v, i as int) == before + typed_aux_items(v, 0),
        decreases s@.len() - i,
    {
        assert(v[i as int] == s@[i as int]@);
        let ghost sofar = w@;
        let ghost more = typed_aux_items(v, i + 1);
        if i > 0 {
            w.push(',');
            w.push(' ');
        }
        let ghost sep: Seq<char> = if i == 0 {
            Seq::empty()
        } else {
            seq![',', ' ']
        };
        assert(w@ =~= sofar + sep);
        put_typed_aux(w, &s[i]);
        proof {
            let t = typed_aux_text(v[i as int]);
            lemma_joined(sofar + sep, t, more);
            lemma_joined(sofar, sep, t + more);
        }
        i += 1;
    }
    assert(w@ + typed_aux_items(v, i as int) =~= w@);
}

fn put_typed_binding(w: &mut String, b: &TypedGadgetBinding)
    ensures
        final(w)@ == old(w)@ + typed_binding_text(b@),
{
    let ghost z = w@;
    w.push_str("gadget");
    w.push(' ');
    put_name(w, &b.gadget);
    w.push(' ');
    w.push_str("on");
    w.push(' ');
    put_selector(w, &b.selector);
    w.push(' ');
    w.push_str("aux");
    w.push('=');
    w.push('[');
    put_typed_aux_items(w, &b.aux_sources);
    w.push(']');
    put_rng_source(w, &b.rng_source);
    proof {
        let p1 = "gadget"@;
        let p2 = seq![' '];
        let p3 = quoted(b.gadget@);
        let p4 = seq![' '];
        let p5 = "on"@;
        let p6 = seq![' '];
        let p7 = selector_text(b.selector@);
        let p8 = seq![' '];
        let p9 = "aux"@;
        let p10 = seq!['='];
        let p11 = seq!['['];
        let p12 = typed_aux_items(b@.aux_sources, 0);
        let p13 = seq![']'] + rng_text(b@.rng_source);
        assert(w@ =~= z + p1 + p2 + p3 + p4 + p5 + p6 + p7 + p8 + p9 + p10 + p11 + p12 + p13);
        lemma_joined(z + p1 + p2 + p3 + p4 + p5 + p6 + p7 + p8 + p9 + p10 + p11, p12, p13);
        lemma_joined(z + p1 + p2 + p3 + p4 + p5 + p6 + p7 + p8 + p9 + p10, p11, p12 + p13);
        lemma_joined(z + p1 + p2 + p3 + p4 + p5 + p6 + p7 + p8 + p9, p10, p11 + (p12 + p13));
        lemma_joined(z + p1 + p2 + p3 + p4 + p5 + p6 + p7 + p8, p9, p10 + (p11 + (p12 + p13)));
        lemma_joined(z + p1 + p2 + p3 + p4 + p5 + p6 + p7, p8, p9 + (p10 + (p11 + (p12 + p13))));
        lemma_joined(z + p1 + p2 + p3 + p4 + p5 + p6, p7, p8 + (p9 + (p10 + (p11 + (p12 + p13)))));
        lemma_joined(z + p1 + p2 + p3 + p4 + p5, p6, p7 + (p8 + (p9 + (p10 + (p11 + (p12 + p13))))));
        lemma_joined(z + p1 + p2 + p3 + p4, p5, p6 + (p7 + (p8 + (p9 + (p10 + (p11 + (p12 + p13)))))));
        lemma_joined(z + p1 + p2 + p3, p4, p5 + (p6 + (p7 + (p8 + (p9 + (p10 + (p11 + (p12 + p13))))))));
        lemma_joined(z + p1 + p2, p3, p4 + (p5 + (p6 + (p7 + (p8 + (p9 + (p10 + (p11 + (p12 + p13)))))))));
        lemma_joined(z + p1, p2, p3 + (p4 + (p5 + (p6 + (p7 + (p8 + (p9 + (p10 + (p11 + (p12 + p13))))))))));
        lemma_joined(z, p1, p2 + (p3 + (p4 + (p5 + (p6 + (p7 + (p8 + (p9 + (p10 + (p11 + (p12 + p13)))))))))));
    }
}

/// Append the section on gadgets.
pub fn write_typed_gadget_bindings(bindings: &[TypedGadgetBinding], w: &mut String)
    ensures
        final(w)@ == old(w)@ + typed_gadgets_text(typed_binding_views(bindings@)),
{
    let ghost bs = typed_binding_views(bindings@);
    let ghost z = w@;
    w.push_str("typed_gadgets");
    w.push_str(" {\n");
    proof {
        reveal_strlit(" {\n");
        assert(" {\n"@ =~= seq![' ', '{', '\n']);
    }
    let ghost before = w@;
    let mut i: usize = 0;
    while i < bindings.len()
        invariant
            i <= bindings@.len(),
            bs == typed_binding_views(bindings@),
            w@ + typed_binding_lines(bs, i as int) == before + typed_binding_lines(bs, 0),
        decreases bindings@.len() - i,
    {
        assert(bs[i as int] == bindings@[i as int]@);
        let ghost sofar = w@;
        w.push(' ');
        w.push(' ');
        assert(w@ =~= sofar + seq![' ', ' ']);
        put_typed_binding(w, &bindings[i]);
        let ghost mid = w@;
        w.push('\n');
        assert(w@ =~= mid + seq!['\n']);
        proof {
            let t = typed_binding_text(bs[i as int]);
            let more = typed_binding_lines(bs, i + 1);
            lemma_joined(sofar + seq![' ', ' '] + t, seq!['\n'], more);
            lemma_joined(sofar + seq![' ', ' '], t, seq!['\n'] + more);
            lemma_joined(sofar, seq![' ', ' '], t + (seq!['\n'] + more));
        }
        i += 1;
    }
    assert(w@ + typed_binding_lines(bs, i as int) =~= w@);
    w.push_str("}\n");
    proof {
        reveal_strlit("}\n");
        assert("}\n"@ =~= seq!['}', '\n']);
        let a = "typed_gadgets"@;
        let b = seq![' ', '{', '\n'];
        let c = typed_binding_lines(bs, 0);
        let d = seq!['}', '\n'];
        assert(w@ == z + a + b + c + d);
        lemma_joined(z + a + b, c, d);
        lemma_joined(z + a, b, c + d);
        lemma_joined(z, a, b + (c + d));
    }
}

fn read_typed_aux_list(lex: &mut Lexer) -> (r: Result<Vec<TypedAuxSource>, ParseError>)
    ensures
        match get_typed_aux_list(old(lex)@) {
            Ok((s, m)) => r matches Ok(x) && typed_aux_views(x@) == s && final(lex)@ == m,
            Err(e) => r matches Err(x) && x@ == e,
        },
{
    match lex.read_ident_kw("aux") {
        Ok(_) => {},
        Err(e) => {
            return Err(e);
        },
    }
    match lex.expect('=') {
        Ok(_) => {},
        Err(e) => {
            return Err(e);
        },
    }
    match lex.expect('[') {
        Ok(_) => {},
        Err(e) => {
            return Err(e);
        },
    }
    let ghost whole = get_typed_aux_items(lex@, Seq::empty());
    let mut out: Vec<TypedAuxSource> = Vec::new();
    assert(typed_aux_views(out@) =~= Seq::empty());
    loop
        invariant
            whole == get_typed_aux_list(old(lex)@),
            whole == get_typed_aux_items(lex@, typed_aux_views(out@)),
        decreases lex@.rest.len(),
    {
        broadcast use group_shrinks;

        if lex.take(']') {
            return Ok(out);
        }
        proof {
            lemma_typed_aux_shrinks(lex@);
        }
        match read_typed_aux(lex) {
            Ok(a) => {
                let ghost before = out@;
                let ghost v = a@;
                out.push(a);
                assert(typed_aux_views(out@) =~= typed_aux_views(before).push(v));
            },
            Err(e) => {
                return Err(e);
            },
        }
        if !lex.take(',') {
            match lex.expect(']') {
                Ok(_) => {
                    return Ok(out);
                },
                Err(e) => {
                    return Err(e);
                },
            }
        }
    }
}

fn read_typed_binding(lex: &mut Lexer) -> (r: Result<TypedGadgetBinding, ParseError>)
    ensures
        gives_view(r, final(lex)@, get_typed_binding(old(lex)@)),
{
    match lex.read_ident_kw("gadget") {
        Ok(_) => {},
        Err(e) => {
            return Err(e);
        },
    }
    let gadget: String = match lex.read_string() {
        Ok(x) => x,
        Err(e) => {
            return Err(e);
        },
    };
    match lex.read_ident_kw("on") {
        Ok(_) => {},
        Err(e) => {
            return Err(e);
        },
    }
    let selector: RegionSelector = match read_selector(lex) {
        Ok(x) => x,
        Err(e) => {
            return Err(e);
        },
    };
    let aux_sources: Vec<TypedAuxSource> = match read_typed_aux_list(lex) {
        Ok(x) => x,
        Err(e) => {
            return Err(e);
        },
    };
    match read_rng_source(lex) {
        Ok(rng_source) => Ok(TypedGadgetBinding { gadget, selector, aux_sources, rng_source }),
        Err(e) => Err(e),
    }
}

/// Read the bindings of a section behind its opening brace.
pub fn parse_typed_gadget_section(lex: &mut Lexer) -> (r: Result<Vec<TypedGadgetBinding>, ParseError>)
    ensures
        match get_typed_bindings(old(lex)@, Seq::empty()) {
            Ok((bs, m)) => r matches Ok(x) && typed_binding_views(x@) == bs && final(lex)@ == m,
            Err(e) => r matches Err(x) && x@ == e,
        },
{
    let ghost whole = get_typed_bindings(lex@, Seq::empty());
    let mut out: Vec<TypedGadgetBinding> = Vec::new();
    assert(typed_binding_views(out@) =~= Seq::empty());
    loop
        invariant
            whole == get_typed_bindings(old(lex)@, Seq::empty()),
            whole == get_typed_bindings(lex@, typed_binding_views(out@)),
        decreases lex@.rest.len(),
    {
        broadcast use group_shrinks;

        if lex.take('}') {
            return Ok(out);
        }
        proof {
            lemma_typed_binding_shrinks(lex@);
        }
        match read_typed_binding(lex) {
            Ok(b) => {
                let ghost before = out@;
                let ghost v = b@;
                out.push(b);
                assert(typed_binding_views(out@) =~= typed_binding_views(before).push(v));
            },
            Err(e) => {
                return Err(e);
            },
        }
    }
}

/// The words of a binding are words.
proof fn lemma_typed_binding_words()
    ensures
        is_name("gadget"@),
        is_name("on"@),
        is_name("aux"@),
        "gadget"@[0] == 'g',
        "on"@[0] == 'o',
        "aux"@[0] == 'a',
{
    reveal_strlit("gadget");
    reveal_strlit("on");
    reveal_strlit("aux");
}

/// The sources of a binding from source `i` on are read back.
#[verifier::rlimit(60)]
proof fn lemma_typed_aux_items(l: LexView, s: Seq<TypedAuxView>, i: int, k: Seq<char>)
    requires
        0 <= i < s.len(),
        l.skipped().rest == typed_aux_text(s[i]) + (typed_aux_items(s, i + 1) + (seq![']'] + k)),
    ensures
        reads(get_typed_aux_items(l, s.take(i)), s, k),
    decreases s.len() - i,
{
    let close = seq![']'] + k;
    let tail = typed_aux_items(s, i + 1) + close;
    let (end, l1) = try_char(l, ']');
    lemma_typed_aux_starts(s[i], tail);
    assert(!end);
    lemma_at_token(l1);
    if i + 1 < s.len() {
        let next = typed_aux_text(s[i + 1]) + (typed_aux_items(s, i + 2) + close);
        assert(tail == seq![',', ' '] + next) by {
            let x = typed_aux_text(s[i + 1]);
            let y = typed_aux_items(s, i + 2);
            lemma_joined(seq![',', ' '], x + y, close);
            lemma_joined(x, y, close);
        }
        let sp = seq![' '] + next;
        assert(tail =~= seq![','] + sp);
        assert(tail[0] == ',');
        lemma_typed_aux_starts(s[i + 1], typed_aux_items(s, i + 2) + close);
        assert(tail[1] == ' ');
        assert(tail[2] == next[0]);
        lemma_typed_aux(l1, s[i], tail);
        let l2 = get_typed_aux(l1)->Ok_0.1;
        lemma_at_token(l2);
        lemma_char(l2, ',', sp);
        let l3 = try_char(l2, ',').1;
        lemma_past_blank(l3, ' ', next);
        lemma_typed_aux_items(l3, s, i + 1, k);
        assert(s.take(i + 1) =~= s.take(i).push(s[i]));
    } else {
        assert(tail =~= close);
        assert(tail[0] == ']');
        lemma_typed_aux(l1, s[i], tail);
        let l2 = get_typed_aux(l1)->Ok_0.1;
        lemma_at_token(l2);
        let l3 = try_char(l2, ',').1;
        assert(l3 == l2);
        lemma_char(l3, ']', k);
        assert(s.take(i).push(s[i]) =~= s);
    }
}

/// The sources of a binding are read back.
proof fn lemma_typed_aux_list(l: LexView, s: Seq<TypedAuxView>, k: Seq<char>)
    requires
        l.skipped().rest == "aux"@ + (seq!['='] + (seq!['['] + (typed_aux_items(s, 0) + (seq![']']
            + k)))),
    ensures
        reads(get_typed_aux_list(l), s, k),
{
    lemma_typed_binding_words();
    let close = seq![']'] + k;
    let k3 = typed_aux_items(s, 0) + close;
    let k2 = seq!['['] + k3;
    let k1 = seq!['='] + k2;
    assert(k1[0] == '=');
    lemma_word(l, "aux"@, k1);
    let l1 = get_ident(l)->Ok_0.1;
    lemma_at_token(l1);
    lemma_char(l1, '=', k2);
    let l2 = get_char(l1, '=')->Ok_0.1;
    assert(k2[0] == '[');
    lemma_at_token(l2);
    lemma_char(l2, '[', k3);
    let l3 = get_char(l2, '[')->Ok_0.1;
    if s.len() == 0 {
        assert(k3 =~= close);
        assert(close[0] == ']');
        lemma_at_token(l3);
        lemma_char(l3, ']', k);
        assert(s =~= Seq::empty());
    } else {
        let first = typed_aux_text(s[0]) + (typed_aux_items(s, 1) + close);
        assert(k3 == first) by {
            assert(Seq::<char>::empty() + (typed_aux_text(s[0]) + typed_aux_items(s, 1)) =~= typed_aux_text(s[0])
                + typed_aux_items(s, 1));
            lemma_joined(typed_aux_text(s[0]), typed_aux_items(s, 1), close);
        }
        lemma_typed_aux_starts(s[0], typed_aux_items(s, 1) + close);
        lemma_at_token(l3);
        lemma_typed_aux_items(l3, s, 0, k);
        assert(s.take(0) =~= Seq::empty());
    }
}

/// A binding is read back, and the next line is next.
#[verifier::rlimit(60)]
proof fn lemma_typed_binding(l: LexView, b: TypedBindingView, lead: Seq<char>, t: Seq<char>) -> (m: LexView)
    requires
        typed_binding_writable(b),
        lead.len() > 0,
        forall|j: int| 0 <= j < lead.len() ==> is_blank(#[trigger] lead[j]),
        t.len() > 0,
        t[0] == 'g' || t[0] == '}',
        l.skipped().rest == typed_binding_text(b) + (lead + t),
    ensures
        get_typed_binding(l) == Ok::<(TypedBindingView, LexView), ErrorView>((b, m)),
        m.skipped().rest == t,
{
    lemma_typed_binding_words();
    let k = lead + t;
    let k7 = rng_text(b.rng_source) + k;
    let k6 = "aux"@ + (seq!['='] + (seq!['['] + (typed_aux_items(b.aux_sources, 0) + (seq![']'] + k7))));
    let k5 = selector_text(b.selector) + (seq![' '] + k6);
    let k4 = seq![' '] + k5;
    let k3 = "on"@ + k4;
    let k2 = quoted(b.gadget) + (seq![' '] + k3);
    let k1 = seq![' '] + k2;
    assert(typed_binding_text(b) + k == "gadget"@ + k1) by {
        broadcast use lemma_joined;

    }
    assert(k1[0] == ' ');
    lemma_word(l, "gadget"@, k1);
    let l1 = get_ident(l)->Ok_0.1;
    assert(k2[0] == '"');
    lemma_past_blank(l1, ' ', k2);
    lemma_quoted(l1, b.gadget, seq![' '] + k3);
    let l2 = get_string(l1)->Ok_0.1;
    assert(k3[0] == 'o');
    lemma_past_blank(l2, ' ', k3);
    assert(k4[0] == ' ');
    lemma_word(l2, "on"@, k4);
    let l3 = get_ident(l2)->Ok_0.1;
    assert(k5[0] == '{');
    lemma_past_blank(l3, ' ', k5);
    lemma_selector(l3, b.selector, seq![' '] + k6);
    let l4 = get_selector(l3)->Ok_0.1;
    assert(k6[0] == 'a');
    lemma_past_blank(l4, ' ', k6);
    lemma_typed_aux_list(l4, b.aux_sources, k7);
    let l5 = get_typed_aux_list(l4)->Ok_0.1;
    assert(lead[0] == k[0]);
    lemma_rng_source(l5, b.rng_source, lead, t)
}

/// What is left of a section at the start of line `i`.
spec fn typed_binding_rest(bs: Seq<TypedBindingView>, i: int, k: Seq<char>) -> Seq<char> {
    if i >= bs.len() {
        seq!['}'] + k
    } else {
        typed_binding_text(bs[i]) + (seq!['\n'] + (typed_binding_lines(bs, i + 1) + (seq!['}'] + k)))
    }
}

/// The next line of a section starts behind its blanks.
proof fn lemma_typed_binding_lead(bs: Seq<TypedBindingView>, i: int, k: Seq<char>) -> (lead: Seq<char>)
    requires
        0 <= i,
    ensures
        lead.len() > 0,
        forall|j: int| 0 <= j < lead.len() ==> is_blank(#[trigger] lead[j]),
        seq!['\n'] + (typed_binding_lines(bs, i) + (seq!['}'] + k)) == lead + typed_binding_rest(bs, i, k),
        typed_binding_rest(bs, i, k).len() > 0,
        typed_binding_rest(bs, i, k)[0] == 'g' || typed_binding_rest(bs, i, k)[0] == '}',
{
    let close = seq!['}'] + k;
    if i >= bs.len() {
        assert(typed_binding_lines(bs, i) + close =~= close);
        assert(close[0] == '}');
        seq!['\n']
    } else {
        lemma_typed_binding_words();
        let t = typed_binding_rest(bs, i, k);
        assert(typed_binding_lines(bs, i) + close == seq![' ', ' '] + t) by {
            let x = typed_binding_text(bs[i]);
            let y = typed_binding_lines(bs, i + 1);
            lemma_joined(seq![' ', ' '], x + (seq!['\n'] + y), close);
            lemma_joined(x, seq!['\n'] + y, close);
            lemma_joined(seq!['\n'], y, close);
        }
        assert(seq!['\n'] + (seq![' ', ' '] + t) =~= seq!['\n', ' ', ' '] + t);
        assert(typed_binding_text(bs[i])[0] == "gadget"@[0]);
        assert(t[0] == 'g');
        seq!['\n', ' ', ' ']
    }
}

/// The bindings of a section from binding `i` on are read back.
#[verifier::rlimit(60)]
proof fn lemma_typed_bindings(l: LexView, bs: Seq<TypedBindingView>, i: int, k: Seq<char>)
    requires
        0 <= i <= bs.len(),
        typed_binding_all_writable(bs),
        l.skipped().rest == typed_binding_rest(bs, i, k),
    ensures
        reads(get_typed_bindings(l, bs.take(i)), bs, k),
    decreases bs.len() - i,
{
    if i == bs.len() {
        lemma_char(l, '}', k);
        assert(bs.take(i) =~= bs);
    } else {
        lemma_typed_binding_lead(bs, i, k);
        let l1 = try_char(l, '}').1;
        lemma_typed_binding_words();
        assert(typed_binding_text(bs[i])[0] == "gadget"@[0]);
        assert(l1.rest[0] == 'g');
        lemma_at_token(l1);
        let lead = lemma_typed_binding_lead(bs, i + 1, k);
        let l2 = lemma_typed_binding(l1, bs[i], lead, typed_binding_rest(bs, i + 1, k));
        lemma_typed_bindings(l2, bs, i + 1, k);
        assert(bs.take(i + 1) =~= bs.take(i).push(bs[i]));
    }
}

/// The section on gadgets is read back behind its word.
pub proof fn lemma_typed_gadgets(l: LexView, bs: Seq<TypedBindingView>, k: Seq<char>)
    requires
        typed_binding_all_writable(bs),
        l.rest == seq![' ', '{', '\n'] + (typed_binding_lines(bs, 0) + (seq!['}'] + k)),
    ensures
        get_char(l, '{') is Ok,
        reads(get_typed_bindings(get_char(l, '{')->Ok_0.1, Seq::empty()), bs, k),
{
    let t = typed_binding_lines(bs, 0) + (seq!['}'] + k);
    let s = seq!['\n'] + t;
    assert(l.rest =~= seq![' '] + (seq!['{'] + s));
    assert((seq!['{'] + s)[0] == '{');
    lemma_past_blank(l, ' ', seq!['{'] + s);
    lemma_char(l, '{', s);
    let m = get_char(l, '{')->Ok_0.1;
    let lead = lemma_typed_binding_lead(bs, 0, k);
    lemma_past_blanks(m, lead, typed_binding_rest(bs, 0, k));
    lemma_typed_bindings(m, bs, 0, k);
    assert(bs.take(0) =~= Seq::empty());
}

// ---------------------------------------------------------------------------
// Gadgets by their ports
// ---------------------------------------------------------------------------

/// A gadget by its name and its ports.
#[derive(PartialEq, Eq, Debug)]
pub struct TypedGadgetSpecStub {
    pub name: String,
    pub ports: Vec<TypedPort>,
}

/// What a [`TypedGadgetSpecStub`] denotes.
#[verifier::ext_equal]
pub struct StubView {
    pub name: Seq<char>,
    pub ports: Seq<TypedPortView>,
}

impl View for TypedGadgetSpecStub {
    type V = StubView;

    open spec fn view(&self) -> StubView {
        StubView { name: self.name@, ports: typed_port_views(self.ports@) }
    }
}

/// The views of a list of stubs.
pub open spec fn stub_views(s: Seq<TypedGadgetSpecStub>) -> Seq<StubView> {
    s.map_values(|x: TypedGadgetSpecStub| x@)
}

/// The names and ports of gadgets.
pub open spec fn library_stubs(s: Seq<TypedGadgetSpec>) -> Seq<StubView> {
    s.map_values(
        |x: TypedGadgetSpec| StubView { name: x.name@, ports: typed_port_views(x.ports@) },
    )
}

fn copied_port(p: &TypedPort) -> (r: TypedPort)
    ensures
        r@ == p@,
{
    TypedPort { name: p.name.clone(), kind: p.kind, ty: p.ty, count: p.count }
}

/// The names and ports of the gadgets of a library.
pub fn spec_stubs(lib: &TypedGadgetLibrary) -> (r: Vec<TypedGadgetSpecStub>)
    ensures
        stub_views(r@) == library_stubs(lib.gadgets@),
{
    let mut out: Vec<TypedGadgetSpecStub> = Vec::new();
    let mut i: usize = 0;
    while i < lib.gadgets.len()
        invariant
            i <= lib.gadgets@.len(),
            out@.len() == i,
            forall|k: int| 0 <= k < i ==> (#[trigger] out@[k])@ == library_stubs(lib.gadgets@)[k],
        decreases lib.gadgets@.len() - i,
    {
        let spec = &lib.gadgets[i];
        let mut ports: Vec<TypedPort> = Vec::new();
        let mut j: usize = 0;
        while j < spec.ports.len()
            invariant
                j <= spec.ports@.len(),
                ports@.len() == j,
                forall|k: int| 0 <= k < j ==> (#[trigger] ports@[k])@ == spec.ports@[k]@,
            decreases spec.ports@.len() - j,
        {
            ports.push(copied_port(&spec.ports[j]));
            j += 1;
        }
        assert(typed_port_views(ports@) =~= typed_port_views(spec.ports@));
        out.push(TypedGadgetSpecStub { name: spec.name.clone(), ports });
        i += 1;
    }
    assert(stub_views(out@) =~= library_stubs(lib.gadgets@));
    out
}

/// The word of a kind of ports.
pub open spec fn kind_text(k: PortKind) -> Seq<char> {
    match k {
        PortKind::Data => "data"@,
        PortKind::Aux => "aux"@,
        PortKind::Rng => "rng"@,
    }
}

/// The name of a port behind a colon, if it has one.
pub open spec fn port_name_text(name: Seq<char>) -> Seq<char> {
    if name.len() == 0 {
        Seq::empty()
    } else {
        seq![':'] + quoted(name)
    }
}

/// A port.
pub open spec fn port_text(p: TypedPortView) -> Seq<char> {
    kind_text(p.kind) + (port_name_text(p.name) + (mark_text('T', p.ty.0) + (seq![':'] + dec(
        p.count as nat,
    ))))
}

/// The ports from port `i` on.
pub open spec fn port_items(s: Seq<TypedPortView>, i: int) -> Seq<char>
    decreases s.len() - i,
{
    if i >= s.len() {
        Seq::empty()
    } else {
        seq![' '] + (port_text(s[i]) + port_items(s, i + 1))
    }
}

/// A gadget.
pub open spec fn stub_text(s: StubView) -> Seq<char> {
    "spec"@ + (seq![' '] + (quoted(s.name) + port_items(s.ports, 0)))
}

/// The gadgets from gadget `i` on, a line for each.
pub open spec fn stub_lines(ss: Seq<StubView>, i: int) -> Seq<char>
    decreases ss.len() - i,
{
    if i >= ss.len() {
        Seq::empty()
    } else {
        seq![' ', ' '] + (stub_text(ss[i]) + (seq!['\n'] + stub_lines(ss, i + 1)))
    }
}

/// The section on gadgets by their ports.
pub open spec fn typed_gadget_specs_text(ss: Seq<StubView>) -> Seq<char> {
    "typed_gadget_specs"@ + (seq![' ', '{', '\n'] + (stub_lines(ss, 0) + seq!['}', '\n']))
}

/// Whether gadgets can be read back: see the ports.
pub open spec fn stubs_writable(ss: Seq<StubView>) -> bool {
    forall|i: int| 0 <= i < ss.len() ==> stub_writable(#[trigger] ss[i])
}

/// Whether a gadget can be read back.
pub open spec fn stub_writable(s: StubView) -> bool {
    forall|i: int| 0 <= i < s.ports.len() ==> port_writable(#[trigger] s.ports[i])
}

/// Whether a port can be read back: the number of its words has at most 32
/// bits.
pub open spec fn port_writable(p: TypedPortView) -> bool {
    p.count <= u32::MAX
}

/// The name of a port, if it has one.
pub open spec fn get_port_name(l: LexView) -> Parsed<Seq<char>> {
    let (named, l1) = try_char(l, ':');
    if named {
        get_string(l1)
    } else {
        Ok((Seq::empty(), l1))
    }
}

/// A port behind its kind.
pub open spec fn get_port_rest(kind: PortKind, l: LexView) -> Parsed<TypedPortView> {
    match get_port_name(l) {
        Err(e) => Err(e),
        Ok((name, l)) => match get_mark(l, 'T') {
            Err(e) => Err(e),
            Ok((ty, l)) => match get_char(l, ':') {
                Err(e) => Err(e),
                Ok((_, l)) => match get_usize(l) {
                    Err(e) => Err(e),
                    Ok((count, l)) => Ok(
                        (TypedPortView { name, kind, ty: IRTypeId(ty), count }, l),
                    ),
                },
            },
        },
    }
}

/// A port.
pub open spec fn get_port(l: LexView) -> Parsed<TypedPortView> {
    match get_ident(l) {
        Err(e) => Err(e),
        Ok((kind, l)) => if kind == "data"@ {
            get_port_rest(PortKind::Data, l)
        } else if kind == "aux"@ {
            get_port_rest(PortKind::Aux, l)
        } else if kind == "rng"@ {
            get_port_rest(PortKind::Rng, l)
        } else {
            Err(ErrorView::UnknownDirective(kind))
        },
    }
}

/// The rest of the ports of a gadget.
pub open spec fn get_ports(l: LexView, so_far: Seq<TypedPortView>) -> Parsed<Seq<TypedPortView>>
    decreases l.rest.len(),
{
    let l = l.skipped();
    if l.at('d') || l.at('a') || l.at('r') {
        match get_port(l) {
            Err(e) => Err(e),
            Ok((p, m)) => {
                proof {
                    broadcast use group_shrinks;

                    lemma_port_shrinks(l);
                }
                get_ports(m, so_far.push(p))
            },
        }
    } else {
        Ok((so_far, l))
    }
}

/// A gadget.
pub open spec fn get_stub(l: LexView) -> Parsed<StubView> {
    match get_word(l, "spec"@) {
        Err(e) => Err(e),
        Ok((_, l)) => match get_string(l) {
            Err(e) => Err(e),
            Ok((name, l)) => match get_ports(l, Seq::empty()) {
                Err(e) => Err(e),
                Ok((ports, l)) => Ok((StubView { name, ports }, l)),
            },
        },
    }
}

/// The rest of the gadgets of a section, up to its closing brace.
pub open spec fn get_stubs(l: LexView, so_far: Seq<StubView>) -> Parsed<Seq<StubView>>
    decreases l.rest.len(),
{
    let (end, l1) = try_char(l, '}');
    if end {
        Ok((so_far, l1))
    } else {
        match get_stub(l1) {
            Err(e) => Err(e),
            Ok((s, l2)) => {
                proof {
                    broadcast use group_shrinks;

                    lemma_stub_shrinks(l1);
                }
                get_stubs(l2, so_far.push(s))
            },
        }
    }
}

/// A port ends further on than it starts.
pub proof fn lemma_port_shrinks(l: LexView)
    ensures
        get_port(l) matches Ok((_, m)) ==> m.rest.len() < l.rest.len(),
{
    broadcast use group_shrinks;

    assert forall|x: LexView, c: char| #[trigger] get_mark(x, c) matches Ok((_, m)) ==> m.rest.len()
        < x.rest.len() by {
        lemma_mark_shrinks(x, c);
    }
}

proof fn lemma_ports_shrinks(l: LexView, so_far: Seq<TypedPortView>)
    ensures
        get_ports(l, so_far) matches Ok((_, m)) ==> m.rest.len() <= l.rest.len(),
    decreases l.rest.len(),
{
    broadcast use group_shrinks;

    let s = l.skipped();
    if s.at('d') || s.at('a') || s.at('r') {
        lemma_port_shrinks(s);
        match get_port(s) {
            Err(_) => {},
            Ok((p, m)) => {
                lemma_ports_shrinks(m, so_far.push(p));
            },
        }
    }
}

/// A gadget ends further on than it starts.
pub proof fn lemma_stub_shrinks(l: LexView)
    ensures
        get_stub(l) matches Ok((_, m)) ==> m.rest.len() < l.rest.len(),
{
    broadcast use group_shrinks;

    assert forall|x: LexView| #[trigger] get_ports(x, Seq::empty()) matches Ok((_, m))
        ==> m.rest.len() <= x.rest.len() by {
        lemma_ports_shrinks(x, Seq::empty());
    }
}

fn put_port(w: &mut String, p: &TypedPort)
    ensures
        final(w)@ == old(w)@ + port_text(p@),
{
    let ghost z = w@;
    match p.kind {
        PortKind::Data => w.push_str("data"),
        PortKind::Aux => w.push_str("aux"),
        PortKind::Rng => w.push_str("rng"),
    }
    let ghost z1 = w@;
    if !is_word(&p.name, "") {
        w.push(':');
        put_name(w, &p.name);
    }
    proof {
        reveal_strlit("");
        assert(""@ =~= Seq::empty());
        assert(p.name@.len() == 0 ==> p.name@ =~= Seq::empty());
        assert(w@ =~= z1 + port_name_text(p.name@));
    }
    put_mark(w, 'T', p.ty.0);
    w.push(':');
    push_dec(w, p.count as u128);
    proof {
        let p1 = kind_text(p.kind);
        let p2 = port_name_text(p.name@);
        let p3 = mark_text('T', p.ty.0);
        let p4 = seq![':'];
        let p5 = dec(p.count as nat);
        assert(w@ =~= z + p1 + p2 + p3 + p4 + p5);
        lemma_joined(z + p1 + p2 + p3, p4, p5);
        lemma_joined(z + p1 + p2, p3, p4 + p5);
        lemma_joined(z + p1, p2, p3 + (p4 + p5));
        lemma_joined(z, p1, p2 + (p3 + (p4 + p5)));
    }
}

fn put_stub(w: &mut String, s: &TypedGadgetSpec)
    ensures
        final(w)@ == old(w)@ + stub_text(
            StubView { name: s.name@, ports: typed_port_views(s.ports@) },
        ),
{
    let ghost z = w@;
    let ghost ps = typed_port_views(s.ports@);
    w.push_str("spec");
    w.push(' ');
    put_name(w, &s.name);
    let ghost before = w@;
    let mut i: usize = 0;
    while i < s.ports.len()
        invariant
            i <= s.ports@.len(),
            ps == typed_port_views(s.ports@),
            w@ + port_items(ps, i as int) == before + port_items(ps, 0),
        decreases s.ports@.len() - i,
    {
        assert(ps[i as int] == s.ports@[i as int]@);
        let ghost sofar = w@;
        w.push(' ');
        assert(w@ =~= sofar + seq![' ']);
        put_port(w, &s.ports[i]);
        proof {
            let t = port_text(ps[i as int]);
            let more = port_items(ps, i + 1);
            lemma_joined(sofar + seq![' '], t, more);
            lemma_joined(sofar, seq![' '], t + more);
        }
        i += 1;
    }
    assert(w@ + port_items(ps, i as int) =~= w@);
    proof {
        let p1 = "spec"@;
        let p2 = seq![' '];
        let p3 = quoted(s.name@);
        let p4 = port_items(ps, 0);
        assert(before =~= z + p1 + p2 + p3);
        lemma_joined(z + p1 + p2, p3, p4);
        lemma_joined(z + p1, p2, p3 + p4);
        lemma_joined(z, p1, p2 + (p3 + p4));
    }
}

impl WriteText for TypedGadgetLibrary {
    open spec fn can_write(&self) -> bool {
        true
    }

    open spec fn text(&self) -> Seq<char> {
        typed_gadget_specs_text(library_stubs(self.gadgets@))
    }

    fn write_text(&self, w: &mut String) {
        let ghost ss = library_stubs(self.gadgets@);
        let ghost z = w@;
        w.push_str("typed_gadget_specs");
        w.push_str(" {\n");
        proof {
            reveal_strlit(" {\n");
            assert(" {\n"@ =~= seq![' ', '{', '\n']);
        }
        let ghost before = w@;
        let mut i: usize = 0;
        while i < self.gadgets.len()
            invariant
                i <= self.gadgets@.len(),
                ss == library_stubs(self.gadgets@),
                w@ + stub_lines(ss, i as int) == before + stub_lines(ss, 0),
            decreases self.gadgets@.len() - i,
        {
            let ghost sofar = w@;
            w.push(' ');
            w.push(' ');
            assert(w@ =~= sofar + seq![' ', ' ']);
            put_stub(w, &self.gadgets[i]);
            let ghost mid = w@;
            w.push('\n');
            assert(w@ =~= mid + seq!['\n']);
            proof {
                let t = stub_text(ss[i as int]);
                let more = stub_lines(ss, i + 1);
                lemma_joined(sofar + seq![' ', ' '] + t, seq!['\n'], more);
                lemma_joined(sofar + seq![' ', ' '], t, seq!['\n'] + more);
                lemma_joined(sofar, seq![' ', ' '], t + (seq!['\n'] + more));
            }
            i += 1;
        }
        assert(w@ + stub_lines(ss, i as int) =~= w@);
        w.push_str("}\n");
        proof {
            reveal_strlit("}\n");
            assert("}\n"@ =~= seq!['}', '\n']);
            let a = "typed_gadget_specs"@;
            let b = seq![' ', '{', '\n'];
            let c = stub_lines(ss, 0);
            let d = seq!['}', '\n'];
            assert(w@ == z + a + b + c + d);
            lemma_joined(z + a + b, c, d);
            lemma_joined(z + a, b, c + d);
            lemma_joined(z, a, b + (c + d));
        }
    }
}

fn read_port(lex: &mut Lexer) -> (r: Result<TypedPort, ParseError>)
    ensures
        gives_view(r, final(lex)@, get_port(old(lex)@)),
{
    let word: String = match lex.read_ident() {
        Ok(x) => x,
        Err(e) => {
            return Err(e);
        },
    };
    let kind: PortKind = if is_word(&word, "data") {
        PortKind::Data
    } else if is_word(&word, "aux") {
        PortKind::Aux
    } else if is_word(&word, "rng") {
        PortKind::Rng
    } else {
        return Err(ParseError::UnknownDirective(word));
    };
    let name: String = if lex.take(':') {
        match lex.read_string() {
            Ok(x) => x,
            Err(e) => {
                return Err(e);
            },
        }
    } else {
        String::new()
    };
    let ty: u32 = match read_mark(lex, 'T') {
        Ok(x) => x,
        Err(e) => {
            return Err(e);
        },
    };
    match lex.expect(':') {
        Ok(_) => {},
        Err(e) => {
            return Err(e);
        },
    }
    match lex.read_usize() {
        Ok(count) => Ok(TypedPort { name, kind, ty: IRTypeId(ty), count }),
        Err(e) => Err(e),
    }
}

fn read_ports(lex: &mut Lexer) -> (r: Result<Vec<TypedPort>, ParseError>)
    ensures
        match get_ports(old(lex)@, Seq::empty()) {
            Ok((ps, m)) => r matches Ok(x) && typed_port_views(x@) == ps && final(lex)@ == m,
            Err(e) => r matches Err(x) && x@ == e,
        },
{
    let ghost whole = get_ports(lex@, Seq::empty());
    let mut out: Vec<TypedPort> = Vec::new();
    assert(typed_port_views(out@) =~= Seq::empty());
    loop
        invariant
            whole == get_ports(old(lex)@, Seq::empty()),
            whole == get_ports(lex@, typed_port_views(out@)),
        decreases lex@.rest.len(),
    {
        broadcast use group_shrinks;

        proof {
            lemma_skipped_twice(lex@);
        }
        if !(lex.peek_is('d') || lex.peek_is('a') || lex.peek_is('r')) {
            return Ok(out);
        }
        proof {
            lemma_port_shrinks(lex@);
        }
        match read_port(lex) {
            Ok(p) => {
                let ghost before = out@;
                let ghost v = p@;
                out.push(p);
                assert(typed_port_views(out@) =~= typed_port_views(before).push(v));
            },
            Err(e) => {
                return Err(e);
            },
        }
    }
}

fn read_stub(lex: &mut Lexer) -> (r: Result<TypedGadgetSpecStub, ParseError>)
    ensures
        gives_view(r, final(lex)@, get_stub(old(lex)@)),
{
    match lex.read_ident_kw("spec") {
        Ok(_) => {},
        Err(e) => {
            return Err(e);
        },
    }
    let name: String = match lex.read_string() {
        Ok(x) => x,
        Err(e) => {
            return Err(e);
        },
    };
    match read_ports(lex) {
        Ok(ports) => Ok(TypedGadgetSpecStub { name, ports }),
        Err(e) => Err(e),
    }
}

/// Read the gadgets of a section behind its opening brace.
pub fn parse_typed_gadget_specs(lex: &mut Lexer) -> (r: Result<
    Vec<TypedGadgetSpecStub>,
    ParseError,
>)
    ensures
        match get_stubs(old(lex)@, Seq::empty()) {
            Ok((ss, m)) => r matches Ok(x) && stub_views(x@) == ss && final(lex)@ == m,
            Err(e) => r matches Err(x) && x@ == e,
        },
{
    let ghost whole = get_stubs(lex@, Seq::empty());
    let mut out: Vec<TypedGadgetSpecStub> = Vec::new();
    assert(stub_views(out@) =~= Seq::empty());
    loop
        invariant
            whole == get_stubs(old(lex)@, Seq::empty()),
            whole == get_stubs(lex@, stub_views(out@)),
        decreases lex@.rest.len(),
    {
        broadcast use group_shrinks;

        if lex.take('}') {
            return Ok(out);
        }
        proof {
            lemma_stub_shrinks(lex@);
        }
        match read_stub(lex) {
            Ok(s) => {
                let ghost before = out@;
                let ghost v = s@;
                out.push(s);
                assert(stub_views(out@) =~= stub_views(before).push(v));
            },
            Err(e) => {
                return Err(e);
            },
        }
    }
}

/// The words of gadgets are words, and no two are the same.
proof fn lemma_stub_words()
    ensures
        is_name("spec"@),
        is_name("data"@),
        is_name("aux"@),
        is_name("rng"@),
        "spec"@[0] == 's',
        "data"@[0] == 'd',
        "aux"@[0] == 'a',
        "rng"@[0] == 'r',
        "data"@ != "aux"@,
        "data"@ != "rng"@,
        "aux"@ != "rng"@,
{
    reveal_strlit("spec");
    reveal_strlit("data");
    reveal_strlit("aux");
    reveal_strlit("rng");
    assert("aux"@[0] != "rng"@[0]);
}

/// The name of a port is read back.
proof fn lemma_port_name(l: LexView, name: Seq<char>, k: Seq<char>)
    requires
        at_blank(k),
        l.rest == port_name_text(name) + k,
        l.skipped().rest == l.rest || name.len() == 0,
        name.len() == 0 ==> !l.skipped().at(':'),
    ensures
        name.len() > 0 ==> reads(get_port_name(l), name, k),
        name.len() == 0 ==> get_port_name(l) == Ok::<(Seq<char>, LexView), ErrorView>(
            (name, l.skipped()),
        ),
{
    if name.len() > 0 {
        let q = quoted(name) + k;
        lemma_joined(seq![':'], quoted(name), k);
        lemma_char(l, ':', q);
        let m = try_char(l, ':').1;
        assert(q[0] == '"');
        lemma_at_token(m);
        lemma_quoted(m, name, k);
    } else {
        assert(name =~= Seq::empty());
    }
}

/// What stands behind the name of a port is read back.
proof fn lemma_port_tail(l: LexView, ty: u32, count: usize, k: Seq<char>)
    requires
        at_blank(k),
        count <= u32::MAX,
        l.skipped().rest == seq!['T'] + (dec(ty as nat) + (seq![':'] + (dec(count as nat) + k))),
    ensures
        reads(get_mark(l, 'T'), ty, seq![':'] + (dec(count as nat) + k)),
        ({
            let l1 = get_mark(l, 'T')->Ok_0.1;
            &&& reads(get_char(l1, ':'), (), dec(count as nat) + k)
            &&& reads(get_usize(get_char(l1, ':')->Ok_0.1), count, k)
        }),
{
    let c = dec(count as nat) + k;
    let k2 = seq![':'] + c;
    let d = dec(ty as nat) + k2;
    lemma_char(l, 'T', d);
    let m = get_char(l, 'T')->Ok_0.1;
    lemma_digits(ty as nat, 10);
    assert(d[0] == dec(ty as nat)[0]);
    lemma_at_token(m);
    assert(k2[0] == ':');
    lemma_dec(m, ty as nat, u32::MAX as nat, k2);
    let l1 = get_mark(l, 'T')->Ok_0.1;
    lemma_at_token(l1);
    lemma_char(l1, ':', c);
    let l2 = get_char(l1, ':')->Ok_0.1;
    lemma_digits(count as nat, 10);
    assert(c[0] == dec(count as nat)[0]);
    lemma_at_token(l2);
    lemma_usize(l2, count, k);
}

/// A port is read back.
#[verifier::rlimit(60)]
proof fn lemma_port(l: LexView, p: TypedPortView, k: Seq<char>)
    requires
        port_writable(p),
        at_blank(k),
        l.skipped().rest == port_text(p) + k,
    ensures
        reads(get_port(l), p, k),
{
    lemma_stub_words();
    let d = dec(p.count as nat);
    let t3 = seq!['T'] + (dec(p.ty.0 as nat) + (seq![':'] + (d + k)));
    let k2 = mark_text('T', p.ty.0) + (seq![':'] + (d + k));
    assert(k2 =~= seq![' '] + t3);
    let nm = port_name_text(p.name);
    let k1 = nm + k2;
    let w = kind_text(p.kind);
    assert(port_text(p) + k == w + k1) by {
        lemma_joined(w, nm + (mark_text('T', p.ty.0) + (seq![':'] + d)), k);
        lemma_joined(nm, mark_text('T', p.ty.0) + (seq![':'] + d), k);
        lemma_joined(mark_text('T', p.ty.0), seq![':'] + d, k);
        lemma_joined(seq![':'], d, k);
    }
    assert(k2[0] == ' ');
    if p.name.len() == 0 {
        assert(k1 =~= k2);
    } else {
        assert(k1[0] == ':');
    }
    lemma_word(l, w, k1);
    let l1 = get_ident(l)->Ok_0.1;
    assert(t3[0] == 'T');
    if p.name.len() == 0 {
        lemma_past_blank(l1, ' ', t3);
        lemma_port_name(l1, p.name, k2);
        let l2 = l1.skipped();
        lemma_at_token(l2);
        lemma_port_tail(l2, p.ty.0, p.count, k);
    } else {
        lemma_at_token(l1);
        lemma_port_name(l1, p.name, k2);
        let l2 = get_port_name(l1)->Ok_0.1;
        lemma_past_blank(l2, ' ', t3);
        lemma_port_tail(l2, p.ty.0, p.count, k);
    }
}

/// The ports of a gadget from port `i` on are read back, and the next line is
/// next.
#[verifier::rlimit(60)]
proof fn lemma_ports(
    l: LexView,
    ps: Seq<TypedPortView>,
    i: int,
    lead: Seq<char>,
    t: Seq<char>,
) -> (m: LexView)
    requires
        0 <= i <= ps.len(),
        forall|j: int| 0 <= j < ps.len() ==> port_writable(#[trigger] ps[j]),
        lead.len() > 0,
        forall|j: int| 0 <= j < lead.len() ==> is_blank(#[trigger] lead[j]),
        t.len() > 0,
        t[0] == 's' || t[0] == '}',
        l.rest == port_items(ps, i) + (lead + t),
    ensures
        get_ports(l, ps.take(i)) == Ok::<(Seq<TypedPortView>, LexView), ErrorView>((ps, m)),
        m.skipped().rest == t,
    decreases ps.len() - i,
{
    if i == ps.len() {
        assert(l.rest =~= lead + t);
        lemma_past_blanks(l, lead, t);
        let m = l.skipped();
        lemma_at_token(m);
        assert(ps.take(i) =~= ps);
        m
    } else {
        lemma_stub_words();
        let more = port_items(ps, i + 1) + (lead + t);
        let x = port_text(ps[i]) + more;
        lemma_joined(seq![' '], port_text(ps[i]) + port_items(ps, i + 1), lead + t);
        lemma_joined(port_text(ps[i]), port_items(ps, i + 1), lead + t);
        assert(l.rest == seq![' '] + x);
        assert(port_text(ps[i])[0] == kind_text(ps[i].kind)[0]);
        assert(x[0] == kind_text(ps[i].kind)[0]);
        lemma_past_blank(l, ' ', x);
        let s = l.skipped();
        lemma_at_token(s);
        assert(at_blank(more)) by {
            if i + 1 < ps.len() {
                assert(port_items(ps, i + 1)[0] == ' ');
                assert(more[0] == ' ');
            } else {
                assert(more =~= lead + t);
                assert(more[0] == lead[0]);
            }
        }
        lemma_port(s, ps[i], more);
        let n = get_port(s)->Ok_0.1;
        let m = lemma_ports(n, ps, i + 1, lead, t);
        assert(ps.take(i + 1) =~= ps.take(i).push(ps[i]));
        m
    }
}

/// A gadget is read back, and the next line is next.
#[verifier::rlimit(60)]
proof fn lemma_stub(l: LexView, s: StubView, lead: Seq<char>, t: Seq<char>) -> (m: LexView)
    requires
        stub_writable(s),
        lead.len() > 0,
        forall|j: int| 0 <= j < lead.len() ==> is_blank(#[trigger] lead[j]),
        t.len() > 0,
        t[0] == 's' || t[0] == '}',
        l.skipped().rest == stub_text(s) + (lead + t),
    ensures
        get_stub(l) == Ok::<(StubView, LexView), ErrorView>((s, m)),
        m.skipped().rest == t,
{
    lemma_stub_words();
    let k = lead + t;
    let ports = port_items(s.ports, 0);
    let k3 = ports + k;
    let k2 = quoted(s.name) + k3;
    let k1 = seq![' '] + k2;
    assert(stub_text(s) + k == "spec"@ + k1) by {
        lemma_joined("spec"@, seq![' '] + (quoted(s.name) + ports), k);
        lemma_joined(seq![' '], quoted(s.name) + ports, k);
        lemma_joined(quoted(s.name), ports, k);
    }
    assert(k1[0] == ' ');
    lemma_word(l, "spec"@, k1);
    let l1 = get_ident(l)->Ok_0.1;
    assert(k2[0] == '"');
    lemma_past_blank(l1, ' ', k2);
    lemma_quoted(l1, s.name, k3);
    let l2 = get_string(l1)->Ok_0.1;
    let m = lemma_ports(l2, s.ports, 0, lead, t);
    assert(s.ports.take(0) =~= Seq::empty());
    m
}

/// What is left of a section at the start of line `i`.
spec fn stub_rest(ss: Seq<StubView>, i: int, k: Seq<char>) -> Seq<char> {
    if i >= ss.len() {
        seq!['}'] + k
    } else {
        stub_text(ss[i]) + (seq!['\n'] + (stub_lines(ss, i + 1) + (seq!['}'] + k)))
    }
}

/// The next line of a section starts behind its blanks.
proof fn lemma_stub_lead(ss: Seq<StubView>, i: int, k: Seq<char>) -> (lead: Seq<char>)
    requires
        0 <= i,
    ensures
        lead.len() > 0,
        forall|j: int| 0 <= j < lead.len() ==> is_blank(#[trigger] lead[j]),
        seq!['\n'] + (stub_lines(ss, i) + (seq!['}'] + k)) == lead + stub_rest(ss, i, k),
        stub_rest(ss, i, k).len() > 0,
        stub_rest(ss, i, k)[0] == 's' || stub_rest(ss, i, k)[0] == '}',
{
    let close = seq!['}'] + k;
    if i >= ss.len() {
        assert(stub_lines(ss, i) + close =~= close);
        assert(close[0] == '}');
        seq!['\n']
    } else {
        lemma_stub_words();
        let t = stub_rest(ss, i, k);
        assert(stub_lines(ss, i) + close == seq![' ', ' '] + t) by {
            let x = stub_text(ss[i]);
            let y = stub_lines(ss, i + 1);
            lemma_joined(seq![' ', ' '], x + (seq!['\n'] + y), close);
            lemma_joined(x, seq!['\n'] + y, close);
            lemma_joined(seq!['\n'], y, close);
        }
        assert(seq!['\n'] + (seq![' ', ' '] + t) =~= seq!['\n', ' ', ' '] + t);
        assert(stub_text(ss[i])[0] == "spec"@[0]);
        assert(t[0] == 's');
        seq!['\n', ' ', ' ']
    }
}

/// The gadgets of a section from gadget `i` on are read back.
#[verifier::rlimit(60)]
proof fn lemma_stubs(l: LexView, ss: Seq<StubView>, i: int, k: Seq<char>)
    requires
        0 <= i <= ss.len(),
        stubs_writable(ss),
        l.skipped().rest == stub_rest(ss, i, k),
    ensures
        reads(get_stubs(l, ss.take(i)), ss, k),
    decreases ss.len() - i,
{
    if i == ss.len() {
        lemma_char(l, '}', k);
        assert(ss.take(i) =~= ss);
    } else {
        lemma_stub_lead(ss, i, k);
        let l1 = try_char(l, '}').1;
        lemma_stub_words();
        assert(stub_text(ss[i])[0] == "spec"@[0]);
        assert(l1.rest[0] == 's');
        lemma_at_token(l1);
        let lead = lemma_stub_lead(ss, i + 1, k);
        let l2 = lemma_stub(l1, ss[i], lead, stub_rest(ss, i + 1, k));
        lemma_stubs(l2, ss, i + 1, k);
        assert(ss.take(i + 1) =~= ss.take(i).push(ss[i]));
    }
}

// ---------------------------------------------------------------------------
// Laws
// ---------------------------------------------------------------------------

/// The words of sections are words.
proof fn lemma_typed_section_words()
    ensures
        is_name("typed_regions"@),
        is_name("typed_gadgets"@),
        is_name("typed_gadget_specs"@),
{
    reveal_strlit("typed_regions");
    reveal_strlit("typed_gadgets");
    reveal_strlit("typed_gadget_specs");
}

/// What was written of a table of typed regions is read back as the same
/// entries.
pub proof fn law_typed_regions_round_trip(l: LexView, es: Seq<TypedEntryView>)
    requires
        typed_entry_all_writable(es),
        l.rest == typed_regions_text(es),
    ensures
        opened(l, "typed_regions"@) matches Some(m) && reads(
            get_typed_entries(m, Seq::empty()),
            es,
            seq!['\n'],
        ),
{
    lemma_typed_section_words();
    let k = seq!['\n'];
    assert(seq!['}', '\n'] =~= seq!['}'] + k);
    let t = typed_entry_lines(es, 0) + (seq!['}'] + k);
    lemma_opened(l, "typed_regions"@, t);
    lemma_typed_regions(get_ident(l)->Ok_0.1, es, k);
}

/// What was written of bindings of typed gadgets is read back as the same
/// bindings.
pub proof fn law_typed_gadgets_round_trip(l: LexView, bs: Seq<TypedBindingView>)
    requires
        typed_binding_all_writable(bs),
        l.rest == typed_gadgets_text(bs),
    ensures
        opened(l, "typed_gadgets"@) matches Some(m) && reads(
            get_typed_bindings(m, Seq::empty()),
            bs,
            seq!['\n'],
        ),
{
    lemma_typed_section_words();
    let k = seq!['\n'];
    assert(seq!['}', '\n'] =~= seq!['}'] + k);
    let t = typed_binding_lines(bs, 0) + (seq!['}'] + k);
    lemma_opened(l, "typed_gadgets"@, t);
    lemma_typed_gadgets(get_ident(l)->Ok_0.1, bs, k);
}

/// What was written of a library of typed gadgets is read back as their names
/// and ports.
pub proof fn law_typed_gadget_specs_round_trip(l: LexView, ss: Seq<StubView>)
    requires
        stubs_writable(ss),
        l.rest == typed_gadget_specs_text(ss),
    ensures
        opened(l, "typed_gadget_specs"@) matches Some(m) && reads(
            get_stubs(m, Seq::empty()),
            ss,
            seq!['\n'],
        ),
{
    lemma_typed_section_words();
    let k = seq!['\n'];
    assert(seq!['}', '\n'] =~= seq!['}'] + k);
    let t = stub_lines(ss, 0) + (seq!['}'] + k);
    lemma_opened(l, "typed_gadget_specs"@, t);
    let l1 = get_ident(l)->Ok_0.1;
    let s = seq!['\n'] + t;
    assert(seq![' ', '{', '\n'] + t =~= seq![' '] + (seq!['{'] + s));
    assert((seq!['{'] + s)[0] == '{');
    lemma_past_blank(l1, ' ', seq!['{'] + s);
    lemma_char(l1, '{', s);
    let m = get_char(l1, '{')->Ok_0.1;
    let lead = lemma_stub_lead(ss, 0, k);
    lemma_past_blanks(m, lead, stub_rest(ss, 0, k));
    lemma_stubs(m, ss, 0, k);
    assert(ss.take(0) =~= Seq::empty());
}

} // verus!
