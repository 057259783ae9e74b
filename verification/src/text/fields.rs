//! The values of fields, how they are written and read, and that reading gives
//! back what was written.

use vstd::prelude::*;

use crate::boolar::LaneId;
use crate::common::{Constant, StorageId};
use crate::fmt::{dec, hex, push_dec, push_hex};
use crate::ir::{IRBlockId, IRBlockTargetId, IRTypeId, IRVarId};
use crate::text::error::{ErrorView, ParseError};
use crate::text::lexer::{
    chars_of, get_char, get_ident, get_key, get_list, get_string, get_u128, get_u32, get_u64,
    get_usize, get_var, gives, gives_view, group_shrinks, is_word, LexView, Lexer, Parsed,
};
use crate::text::pieces::{
    at_blank, at_token, ends_number, ends_word, escape, escaped, is_name, item_text, items_text,
    lemma_at_token, lemma_char, lemma_dec, lemma_digits, lemma_hex, lemma_item, lemma_joined,
    lemma_list, lemma_past_blank, lemma_quoted, lemma_word, list_text, quoted, reads,
};

verus! {

// ---------------------------------------------------------------------------
// Values
// ---------------------------------------------------------------------------

/// A size.
pub open spec fn usize_text(v: usize) -> Seq<char> {
    dec(v as nat)
}

/// A long number.
pub open spec fn u64_text(v: u64) -> Seq<char> {
    dec(v as nat)
}

/// A variable.
pub open spec fn var_text(v: IRVarId) -> Seq<char> {
    item_text(v.0, true)
}

/// A type.
pub open spec fn type_text(v: IRTypeId) -> Seq<char> {
    dec(v.0 as nat)
}

/// A storage space.
pub open spec fn storage_text(v: StorageId) -> Seq<char> {
    dec(v.0 as nat)
}

/// A storage lane.
pub open spec fn lane_text(v: LaneId) -> Seq<char> {
    dec(v.0 as nat)
}

/// The numbers of variables.
pub open spec fn var_numbers(s: Seq<IRVarId>) -> Seq<u32> {
    s.map_values(|v: IRVarId| v.0)
}

/// The numbers of types.
pub open spec fn type_numbers(s: Seq<IRTypeId>) -> Seq<u32> {
    s.map_values(|v: IRTypeId| v.0)
}

/// Variables.
pub open spec fn vars_text(v: Seq<IRVarId>) -> Seq<char> {
    list_text(var_numbers(v), true, false, '[', ']')
}

/// Types.
pub open spec fn types_text(v: Seq<IRTypeId>) -> Seq<char> {
    list_text(type_numbers(v), false, false, '[', ']')
}

/// A constant: its halves in hexadecimal, the high one first.
pub open spec fn constant_text(v: Constant) -> Seq<char> {
    seq!['0', 'x'] + hex(v.hi as nat) + seq![':', '0', 'x'] + hex(v.lo as nat)
}

/// A destination.
pub open spec fn target_text(v: IRBlockTargetId) -> Seq<char> {
    match v {
        IRBlockTargetId::Return => "return"@,
        IRBlockTargetId::Block(b) => "block"@ + seq![':'] + dec(b.0 as nat),
        IRBlockTargetId::Dyn(x) => "dyn"@ + seq![':'] + var_text(x),
    }
}

/// A name.
pub open spec fn name_text(v: Seq<char>) -> Seq<char> {
    quoted(v)
}

/// A variable.
pub open spec fn get_var_id(l: LexView) -> Parsed<IRVarId> {
    match get_var(l) {
        Ok((n, l)) => Ok((IRVarId(n), l)),
        Err(e) => Err(e),
    }
}

/// A type.
pub open spec fn get_type(l: LexView) -> Parsed<IRTypeId> {
    match get_u32(l) {
        Ok((n, l)) => Ok((IRTypeId(n), l)),
        Err(e) => Err(e),
    }
}

/// A storage space.
pub open spec fn get_storage(l: LexView) -> Parsed<StorageId> {
    match get_u32(l) {
        Ok((n, l)) => Ok((StorageId(n), l)),
        Err(e) => Err(e),
    }
}

/// A storage lane.
pub open spec fn get_lane(l: LexView) -> Parsed<LaneId> {
    match get_u32(l) {
        Ok((n, l)) => Ok((LaneId(n), l)),
        Err(e) => Err(e),
    }
}

/// Variables.
pub open spec fn get_vars(l: LexView) -> Parsed<Seq<IRVarId>> {
    match get_list(l, true, '[', ']') {
        Ok((s, l)) => Ok((s.map_values(|n: u32| IRVarId(n)), l)),
        Err(e) => Err(e),
    }
}

/// Types.
pub open spec fn get_types(l: LexView) -> Parsed<Seq<IRTypeId>> {
    match get_list(l, false, '[', ']') {
        Ok((s, l)) => Ok((s.map_values(|n: u32| IRTypeId(n)), l)),
        Err(e) => Err(e),
    }
}

/// A constant.
pub open spec fn get_constant(l: LexView) -> Parsed<Constant> {
    match get_u128(l) {
        Err(e) => Err(e),
        Ok((hi, l)) => match get_char(l, ':') {
            Err(e) => Err(e),
            Ok((_, l)) => match get_u128(l) {
                Err(e) => Err(e),
                Ok((lo, l)) => Ok((Constant { hi, lo }, l)),
            },
        },
    }
}

/// A destination.
pub open spec fn get_target(l: LexView) -> Parsed<IRBlockTargetId> {
    match get_ident(l) {
        Err(e) => Err(e),
        Ok((kw, l)) => if kw == "return"@ {
            Ok((IRBlockTargetId::Return, l))
        } else if kw == "block"@ {
            match get_char(l, ':') {
                Err(e) => Err(e),
                Ok((_, l)) => match get_u32(l) {
                    Err(e) => Err(e),
                    Ok((n, l)) => Ok((IRBlockTargetId::Block(IRBlockId(n)), l)),
                },
            }
        } else if kw == "dyn"@ {
            match get_char(l, ':') {
                Err(e) => Err(e),
                Ok((_, l)) => match get_var_id(l) {
                    Err(e) => Err(e),
                    Ok((v, l)) => Ok((IRBlockTargetId::Dyn(v), l)),
                },
            }
        } else {
            Err(ErrorView::UnknownDirective(kw))
        },
    }
}

/// A name.
pub open spec fn get_name(l: LexView) -> Parsed<Seq<char>> {
    get_string(l)
}

pub broadcast proof fn lemma_values_shrink(l: LexView)
    ensures
        get_var_id(l) matches Ok((_, m)) ==> m.rest.len() < l.rest.len(),
        get_type(l) matches Ok((_, m)) ==> m.rest.len() < l.rest.len(),
        get_storage(l) matches Ok((_, m)) ==> m.rest.len() < l.rest.len(),
        get_lane(l) matches Ok((_, m)) ==> m.rest.len() < l.rest.len(),
        get_vars(l) matches Ok((_, m)) ==> m.rest.len() < l.rest.len(),
        get_types(l) matches Ok((_, m)) ==> m.rest.len() < l.rest.len(),
        get_constant(l) matches Ok((_, m)) ==> m.rest.len() < l.rest.len(),
        get_target(l) matches Ok((_, m)) ==> m.rest.len() < l.rest.len(),
        get_name(l) matches Ok((_, m)) ==> m.rest.len() < l.rest.len(),
        get_u32(l) matches Ok((_, m)) ==> m.rest.len() < l.rest.len(),
        get_u64(l) matches Ok((_, m)) ==> m.rest.len() < l.rest.len(),
        get_usize(l) matches Ok((_, m)) ==> m.rest.len() < l.rest.len(),
        #[trigger] l.skipped().rest.len() <= l.rest.len(),
{
    broadcast use group_shrinks;

    assert(get_var(l) matches Ok((_, m)) ==> m.rest.len() < l.rest.len()) by {
        assert(crate::text::lexer::get_item(l, true) == get_var(l));
    }
    match get_ident(l) {
        Ok((_, m)) => match get_char(m, ':') {
            Ok((_, m)) => {
                assert(crate::text::lexer::get_item(m, true) == get_var(m));
            },
            Err(_) => {},
        },
        Err(_) => {},
    }
}

/// Append a variable.
pub fn put_var(w: &mut String, v: IRVarId)
    ensures
        final(w)@ == old(w)@ + var_text(v),
{
    w.push('v');
    push_dec(w, v.0 as u128);
    assert(w@ =~= old(w)@ + var_text(v));
}

/// Append a list of variables or numbers.
pub fn put_list(w: &mut String, items: &Vec<u32>, var: bool, wide: bool, open: char, close: char)
    ensures
        final(w)@ == old(w)@ + list_text(items@, var, wide, open, close),
{
    broadcast use lemma_joined;

    w.push(open);
    let ghost before = w@;
    let mut i: usize = 0;
    while i < items.len()
        invariant
            i <= items@.len(),
            w@ + items_text(items@, var, wide, i as int) == before + items_text(
                items@,
                var,
                wide,
                0,
            ),
        decreases items@.len() - i,
    {
        let ghost sofar = w@;
        let ghost more = items_text(items@, var, wide, i + 1);
        if i > 0 {
            w.push(',');
            if wide {
                w.push(' ');
            }
        }
        let ghost sep: Seq<char> = if i == 0 {
            Seq::empty()
        } else if wide {
            seq![',', ' ']
        } else {
            seq![',']
        };
        assert(w@ =~= sofar + sep);
        let ghost mid = w@;
        if var {
            w.push('v');
        }
        push_dec(w, items[i] as u128);
        assert(w@ =~= mid + item_text(items@[i as int], var));
        assert(w@ + more =~= sofar + (sep + item_text(items@[i as int], var) + more));
        i += 1;
    }
    assert(w@ + items_text(items@, var, wide, i as int) =~= w@);
    w.push(close);
    assert(before =~= old(w)@ + seq![open]);
    assert(w@ =~= old(w)@ + list_text(items@, var, wide, open, close));
}

/// Append variables.
pub fn put_vars(w: &mut String, v: &Vec<IRVarId>)
    ensures
        final(w)@ == old(w)@ + vars_text(v@),
{
    let mut numbers: Vec<u32> = Vec::new();
    let mut i: usize = 0;
    while i < v.len()
        invariant
            i <= v@.len(),
            numbers@ == var_numbers(v@.take(i as int)),
        decreases v@.len() - i,
    {
        numbers.push(v[i].0);
        i += 1;
        assert(numbers@ =~= var_numbers(v@.take(i as int)));
    }
    assert(v@.take(i as int) =~= v@);
    put_list(w, &numbers, true, false, '[', ']');
}

/// Append types.
pub fn put_types(w: &mut String, v: &Vec<IRTypeId>)
    ensures
        final(w)@ == old(w)@ + types_text(v@),
{
    let mut numbers: Vec<u32> = Vec::new();
    let mut i: usize = 0;
    while i < v.len()
        invariant
            i <= v@.len(),
            numbers@ == type_numbers(v@.take(i as int)),
        decreases v@.len() - i,
    {
        numbers.push(v[i].0);
        i += 1;
        assert(numbers@ =~= type_numbers(v@.take(i as int)));
    }
    assert(v@.take(i as int) =~= v@);
    put_list(w, &numbers, false, false, '[', ']');
}

/// Append a constant.
pub fn put_constant(w: &mut String, v: &Constant)
    ensures
        final(w)@ == old(w)@ + constant_text(*v),
{
    w.push_str("0x");
    push_hex(w, v.hi);
    w.push_str(":0x");
    push_hex(w, v.lo);
    proof {
        reveal_strlit("0x");
        reveal_strlit(":0x");
        assert("0x"@ =~= seq!['0', 'x']);
        assert(":0x"@ =~= seq![':', '0', 'x']);
        assert(w@ =~= old(w)@ + constant_text(*v));
    }
}

/// Append a destination.
pub fn put_target(w: &mut String, v: &IRBlockTargetId)
    ensures
        final(w)@ == old(w)@ + target_text(*v),
{
    match v {
        IRBlockTargetId::Return => {
            w.push_str("return");
        },
        IRBlockTargetId::Block(b) => {
            w.push_str("block");
            w.push(':');
            push_dec(w, b.0 as u128);
        },
        IRBlockTargetId::Dyn(x) => {
            w.push_str("dyn");
            w.push(':');
            put_var(w, *x);
        },
    }
    assert(w@ =~= old(w)@ + target_text(*v));
}

/// Append a name in quotes.
pub fn put_name(w: &mut String, v: &String)
    ensures
        final(w)@ == old(w)@ + name_text(v@),
{
    broadcast use lemma_joined;

    w.push('"');
    let cs: Vec<char> = chars_of(v.as_str());
    let ghost before = w@;
    let mut i: usize = 0;
    assert(cs@.skip(0) =~= cs@);
    while i < cs.len()
        invariant
            i <= cs@.len(),
            w@ + escaped(cs@.skip(i as int)) == before + escaped(cs@),
        decreases cs@.len() - i,
    {
        let c: char = cs[i];
        let ghost sofar = w@;
        proof {
            assert(cs@.skip(i as int)[0] == c);
            assert(cs@.skip(i as int).drop_first() =~= cs@.skip(i + 1));
        }
        match c {
            '\\' => {
                w.push('\\');
                w.push('\\');
            },
            '"' => {
                w.push('\\');
                w.push('"');
            },
            '\n' => {
                w.push('\\');
                w.push('n');
            },
            '\t' => {
                w.push('\\');
                w.push('t');
            },
            '\r' => {
                w.push('\\');
                w.push('r');
            },
            _ => {
                w.push(c);
            },
        }
        assert(w@ =~= sofar + escape(c));
        i += 1;
    }
    assert(w@ + escaped(cs@.skip(i as int)) =~= w@);
    w.push('"');
    assert(before =~= old(w)@ + seq!['"']);
    assert(w@ =~= old(w)@ + name_text(v@));
}

/// Read a variable.
pub fn read_var_id(lex: &mut Lexer) -> (r: Result<IRVarId, ParseError>)
    ensures
        gives(r, final(lex)@, get_var_id(old(lex)@)),
{
    match lex.read_var() {
        Ok(n) => Ok(IRVarId(n)),
        Err(e) => Err(e),
    }
}

/// Read a type.
pub fn read_type(lex: &mut Lexer) -> (r: Result<IRTypeId, ParseError>)
    ensures
        gives(r, final(lex)@, get_type(old(lex)@)),
{
    match lex.read_u32() {
        Ok(n) => Ok(IRTypeId(n)),
        Err(e) => Err(e),
    }
}

/// Read a storage space.
pub fn read_storage(lex: &mut Lexer) -> (r: Result<StorageId, ParseError>)
    ensures
        gives(r, final(lex)@, get_storage(old(lex)@)),
{
    match lex.read_u32() {
        Ok(n) => Ok(StorageId(n)),
        Err(e) => Err(e),
    }
}

/// Read a storage lane.
pub fn read_lane(lex: &mut Lexer) -> (r: Result<LaneId, ParseError>)
    ensures
        gives(r, final(lex)@, get_lane(old(lex)@)),
{
    match lex.read_u32() {
        Ok(n) => Ok(LaneId(n)),
        Err(e) => Err(e),
    }
}

/// Read variables.
pub fn read_vars(lex: &mut Lexer) -> (r: Result<Vec<IRVarId>, ParseError>)
    ensures
        gives_view(r, final(lex)@, get_vars(old(lex)@)),
{
    match lex.read_var_list() {
        Ok(s) => {
            let mut out: Vec<IRVarId> = Vec::new();
            let mut i: usize = 0;
            while i < s.len()
                invariant
                    i <= s@.len(),
                    out@ == s@.take(i as int).map_values(|n: u32| IRVarId(n)),
                decreases s@.len() - i,
            {
                out.push(IRVarId(s[i]));
                i += 1;
                assert(out@ =~= s@.take(i as int).map_values(|n: u32| IRVarId(n)));
            }
            assert(s@.take(i as int) =~= s@);
            Ok(out)
        },
        Err(e) => Err(e),
    }
}

/// Read types.
pub fn read_types(lex: &mut Lexer) -> (r: Result<Vec<IRTypeId>, ParseError>)
    ensures
        gives_view(r, final(lex)@, get_types(old(lex)@)),
{
    match lex.read_u32_list() {
        Ok(s) => {
            let mut out: Vec<IRTypeId> = Vec::new();
            let mut i: usize = 0;
            while i < s.len()
                invariant
                    i <= s@.len(),
                    out@ == s@.take(i as int).map_values(|n: u32| IRTypeId(n)),
                decreases s@.len() - i,
            {
                out.push(IRTypeId(s[i]));
                i += 1;
                assert(out@ =~= s@.take(i as int).map_values(|n: u32| IRTypeId(n)));
            }
            assert(s@.take(i as int) =~= s@);
            Ok(out)
        },
        Err(e) => Err(e),
    }
}

/// Read a constant.
pub fn read_constant(lex: &mut Lexer) -> (r: Result<Constant, ParseError>)
    ensures
        gives(r, final(lex)@, get_constant(old(lex)@)),
{
    let hi: u128 = match lex.read_u128() {
        Ok(n) => n,
        Err(e) => {
            return Err(e);
        },
    };
    match lex.expect(':') {
        Ok(_) => {},
        Err(e) => {
            return Err(e);
        },
    }
    match lex.read_u128() {
        Ok(lo) => Ok(Constant { hi, lo }),
        Err(e) => Err(e),
    }
}

/// Read a destination.
pub fn read_target(lex: &mut Lexer) -> (r: Result<IRBlockTargetId, ParseError>)
    ensures
        gives(r, final(lex)@, get_target(old(lex)@)),
{
    let kw: String = match lex.read_ident() {
        Ok(kw) => kw,
        Err(e) => {
            return Err(e);
        },
    };
    if is_word(&kw, "return") {
        return Ok(IRBlockTargetId::Return);
    }
    let block: bool = is_word(&kw, "block");
    if !block && !is_word(&kw, "dyn") {
        return Err(ParseError::UnknownDirective(kw));
    }
    match lex.expect(':') {
        Ok(_) => {},
        Err(e) => {
            return Err(e);
        },
    }
    if block {
        match lex.read_u32() {
            Ok(n) => Ok(IRBlockTargetId::Block(IRBlockId(n))),
            Err(e) => Err(e),
        }
    } else {
        match read_var_id(lex) {
            Ok(v) => Ok(IRBlockTargetId::Dyn(v)),
            Err(e) => Err(e),
        }
    }
}

/// Read a name.
pub fn read_name(lex: &mut Lexer) -> (r: Result<String, ParseError>)
    ensures
        gives_view(r, final(lex)@, get_name(old(lex)@)),
{
    lex.read_string()
}

// ---------------------------------------------------------------------------
// Reading back
// ---------------------------------------------------------------------------

/// A blank ends numbers and words.
pub proof fn lemma_blank_ends(k: Seq<char>)
    requires
        at_blank(k),
    ensures
        ends_number(k),
        ends_word(k),
{
}

/// A size is read back.
pub proof fn lemma_usize(l: LexView, v: usize, k: Seq<char>)
    requires
        l.skipped().rest == usize_text(v) + k,
        ends_number(k),
        v <= u32::MAX,
    ensures
        reads(get_usize(l), v, k),
{
    lemma_dec(l, v as nat, u32::MAX as nat, k);
}

/// A long number is read back.
pub proof fn lemma_u64(l: LexView, v: u64, k: Seq<char>)
    requires
        l.skipped().rest == u64_text(v) + k,
        ends_number(k),
    ensures
        reads(get_u64(l), v, k),
{
    lemma_dec(l, v as nat, u64::MAX as nat, k);
}

/// A type is read back.
pub proof fn lemma_type(l: LexView, v: IRTypeId, k: Seq<char>)
    requires
        l.skipped().rest == type_text(v) + k,
        ends_number(k),
    ensures
        reads(get_type(l), v, k),
{
    lemma_dec(l, v.0 as nat, u32::MAX as nat, k);
}

/// A storage space is read back.
pub proof fn lemma_storage(l: LexView, v: StorageId, k: Seq<char>)
    requires
        l.skipped().rest == storage_text(v) + k,
        ends_number(k),
    ensures
        reads(get_storage(l), v, k),
{
    lemma_dec(l, v.0 as nat, u32::MAX as nat, k);
}

/// A storage lane is read back.
pub proof fn lemma_lane(l: LexView, v: LaneId, k: Seq<char>)
    requires
        l.skipped().rest == lane_text(v) + k,
        ends_number(k),
    ensures
        reads(get_lane(l), v, k),
{
    lemma_dec(l, v.0 as nat, u32::MAX as nat, k);
}

/// A variable is read back.
pub proof fn lemma_var_id(l: LexView, v: IRVarId, k: Seq<char>)
    requires
        l.skipped().rest == var_text(v) + k,
        ends_number(k),
    ensures
        reads(get_var_id(l), v, k),
{
    lemma_item(l, v.0, true, k);
}

/// Variables are read back.
pub proof fn lemma_vars(l: LexView, v: Seq<IRVarId>, k: Seq<char>)
    requires
        l.skipped().rest == vars_text(v) + k,
    ensures
        reads(get_vars(l), v, k),
{
    lemma_list(l, var_numbers(v), true, false, '[', ']', k);
    assert(var_numbers(v).map_values(|n: u32| IRVarId(n)) =~= v);
}

/// Types are read back.
pub proof fn lemma_types(l: LexView, v: Seq<IRTypeId>, k: Seq<char>)
    requires
        l.skipped().rest == types_text(v) + k,
    ensures
        reads(get_types(l), v, k),
{
    lemma_list(l, type_numbers(v), false, false, '[', ']', k);
    assert(type_numbers(v).map_values(|n: u32| IRTypeId(n)) =~= v);
}

/// A constant is read back.
pub proof fn lemma_constant(l: LexView, v: Constant, k: Seq<char>)
    requires
        l.skipped().rest == constant_text(v) + k,
        ends_number(k),
    ensures
        reads(get_constant(l), v, k),
{
    let h = hex(v.hi as nat);
    let o = hex(v.lo as nat);
    let last = seq!['0', 'x'] + (o + k);
    let mid = seq![':'] + last;
    assert(l.skipped().rest =~= seq!['0', 'x'] + (h + mid));
    assert(mid[0] == ':');
    lemma_hex(l, v.hi as nat, u128::MAX as nat, mid);
    let l1 = get_u128(l)->Ok_0.1;
    lemma_at_token(l1);
    lemma_char(l1, ':', last);
    let l2 = get_char(l1, ':')->Ok_0.1;
    assert(last[0] == '0');
    lemma_at_token(l2);
    lemma_hex(l2, v.lo as nat, u128::MAX as nat, k);
}

proof fn lemma_target_words()
    ensures
        is_name("return"@),
        is_name("block"@),
        is_name("dyn"@),
        "return"@.len() == 6,
        "block"@.len() == 5,
        "dyn"@.len() == 3,
{
    reveal_strlit("return");
    reveal_strlit("block");
    reveal_strlit("dyn");
}

/// A destination is read back.
pub proof fn lemma_target(l: LexView, v: IRBlockTargetId, k: Seq<char>)
    requires
        l.skipped().rest == target_text(v) + k,
        at_blank(k),
    ensures
        reads(get_target(l), v, k),
{
    lemma_target_words();
    lemma_blank_ends(k);
    match v {
        IRBlockTargetId::Return => {
            lemma_word(l, "return"@, k);
        },
        IRBlockTargetId::Block(b) => {
            let d = dec(b.0 as nat) + k;
            let t = seq![':'] + d;
            assert(l.skipped().rest =~= "block"@ + t);
            assert(t[0] == ':');
            lemma_word(l, "block"@, t);
            let l1 = get_ident(l)->Ok_0.1;
            lemma_at_token(l1);
            lemma_char(l1, ':', d);
            let l2 = get_char(l1, ':')->Ok_0.1;
            lemma_digits(b.0 as nat, 10);
            assert(d[0] == dec(b.0 as nat)[0]);
            lemma_at_token(l2);
            lemma_dec(l2, b.0 as nat, u32::MAX as nat, k);
        },
        IRBlockTargetId::Dyn(x) => {
            let d = var_text(x) + k;
            let t = seq![':'] + d;
            assert(l.skipped().rest =~= "dyn"@ + t);
            assert(t[0] == ':');
            lemma_word(l, "dyn"@, t);
            let l1 = get_ident(l)->Ok_0.1;
            lemma_at_token(l1);
            lemma_char(l1, ':', d);
            let l2 = get_char(l1, ':')->Ok_0.1;
            assert(d[0] == 'v');
            lemma_at_token(l2);
            lemma_var_id(l2, x, k);
        },
    }
}

/// A name is read back.
pub proof fn lemma_name(l: LexView, v: Seq<char>, k: Seq<char>)
    requires
        l.skipped().rest == name_text(v) + k,
    ensures
        reads(get_name(l), v, k),
{
    lemma_quoted(l, v, k);
}

/// Every value starts with a token.
pub proof fn lemma_values_start(
    n: nat,
    x: IRVarId,
    xs: Seq<IRVarId>,
    ts: Seq<IRTypeId>,
    c: Constant,
    t: IRBlockTargetId,
    s: Seq<char>,
    k: Seq<char>,
)
    ensures
        at_token(dec(n) + k),
        at_token(var_text(x) + k),
        at_token(vars_text(xs) + k),
        at_token(types_text(ts) + k),
        at_token(constant_text(c) + k),
        at_token(target_text(t) + k),
        at_token(name_text(s) + k),
{
    lemma_digits(n, 10);
    lemma_target_words();
    assert((dec(n) + k)[0] == dec(n)[0]);
    assert((var_text(x) + k)[0] == 'v');
    assert((vars_text(xs) + k)[0] == '[');
    assert((types_text(ts) + k)[0] == '[');
    assert((constant_text(c) + k)[0] == '0');
    assert((name_text(s) + k)[0] == '"');
    let tt = target_text(t);
    assert((tt + k)[0] == tt[0]);
    match t {
        IRBlockTargetId::Return => {
            assert(tt[0] == "return"@[0]);
        },
        IRBlockTargetId::Block(_) => {
            assert(tt[0] == "block"@[0]);
        },
        IRBlockTargetId::Dyn(_) => {
            assert(tt[0] == "dyn"@[0]);
        },
    }
}

// ---------------------------------------------------------------------------
// Fields
// ---------------------------------------------------------------------------

/// A field: a blank, its key, a sign and its value.
pub open spec fn field(key: Seq<char>, value: Seq<char>) -> Seq<char> {
    seq![' '] + key + seq!['='] + value
}

/// A value behind a blank.
pub open spec fn spaced(value: Seq<char>) -> Seq<char> {
    seq![' '] + value
}

/// Append the key of a field.
pub fn put_key(w: &mut String, key: &str)
    ensures
        final(w)@ == old(w)@ + (seq![' '] + key@ + seq!['=']),
{
    w.push(' ');
    w.push_str(key);
    w.push('=');
    assert(w@ =~= old(w)@ + (seq![' '] + key@ + seq!['=']));
}

/// A field starts with a blank, and its key is read back.
pub proof fn lemma_key(l: LexView, key: Seq<char>, value: Seq<char>, k: Seq<char>)
    requires
        l.rest == field(key, value) + k,
        is_name(key),
        at_token(value + k),
    ensures
        reads(get_key(l, key), (), value + k),
        get_key(l, key) matches Ok((_, m)) ==> m.skipped() == m,
        at_blank(l.rest),
{
    let t = value + k;
    let e = seq!['='] + t;
    let w = key + e;
    assert(l.rest =~= seq![' '] + w);
    assert(l.rest[0] == ' ');
    assert(w[0] == key[0]);
    assert(e[0] == '=');
    lemma_past_blank(l, ' ', w);
    lemma_word(l, key, e);
    let m = get_ident(l)->Ok_0.1;
    lemma_at_token(m);
    lemma_char(m, '=', t);
    lemma_at_token(get_char(m, '=')->Ok_0.1);
}

/// A field or a value behind a blank starts with a blank.
pub proof fn lemma_field_blank(key: Seq<char>, value: Seq<char>, k: Seq<char>)
    ensures
        at_blank(field(key, value) + k),
        at_blank(spaced(value) + k),
{
    assert((field(key, value) + k)[0] == ' ');
    assert((spaced(value) + k)[0] == ' ');
}

/// A value behind a blank is the next token.
pub proof fn lemma_spaced(l: LexView, value: Seq<char>, k: Seq<char>)
    requires
        l.rest == spaced(value) + k,
        at_token(value + k),
    ensures
        l.skipped().rest == value + k,
{
    assert(l.rest =~= seq![' '] + (value + k));
    lemma_past_blank(l, ' ', value + k);
}

/// The field `key` with a size.
pub open spec fn get_usize_field(l: LexView, key: Seq<char>) -> Parsed<usize> {
    match get_key(l, key) {
        Ok((_, l)) => get_usize(l),
        Err(e) => Err(e),
    }
}

/// Append the field `key` with a size.
pub fn put_usize_field(w: &mut String, key: &str, v: usize)
    ensures
        final(w)@ == old(w)@ + field(key@, usize_text(v)),
{
    put_key(w, key);
    push_dec(w, v as u128);
    assert(w@ =~= old(w)@ + field(key@, usize_text(v)));
}

/// Read the field `key` with a size.
pub fn read_usize_field(lex: &mut Lexer, key: &str) -> (r: Result<usize, ParseError>)
    ensures
        gives(r, final(lex)@, get_usize_field(old(lex)@, key@)),
{
    match lex.expect_key(key) {
        Ok(_) => lex.read_usize(),
        Err(e) => Err(e),
    }
}

/// The field `key` with a size is read back.
pub proof fn lemma_usize_field(l: LexView, key: Seq<char>, v: usize, k: Seq<char>)
    requires
        l.rest == field(key, usize_text(v)) + k,
        is_name(key),
        at_blank(k),
        v <= u32::MAX,
    ensures
        reads(get_usize_field(l, key), v, k),
        at_blank(l.rest),
{
    lemma_blank_ends(k);
    lemma_values_start(
        v as nat,
        IRVarId(0),
        Seq::empty(),
        Seq::empty(),
        Constant { hi: 0, lo: 0 },
        IRBlockTargetId::Return,
        Seq::empty(),
        k,
    );
    lemma_key(l, key, usize_text(v), k);
    lemma_usize(get_key(l, key)->Ok_0.1, v, k);
}

/// The field `key` with a long number.
pub open spec fn get_u64_field(l: LexView, key: Seq<char>) -> Parsed<u64> {
    match get_key(l, key) {
        Ok((_, l)) => get_u64(l),
        Err(e) => Err(e),
    }
}

/// Append the field `key` with a long number.
pub fn put_u64_field(w: &mut String, key: &str, v: u64)
    ensures
        final(w)@ == old(w)@ + field(key@, u64_text(v)),
{
    put_key(w, key);
    push_dec(w, v as u128);
    assert(w@ =~= old(w)@ + field(key@, u64_text(v)));
}

/// Read the field `key` with a long number.
pub fn read_u64_field(lex: &mut Lexer, key: &str) -> (r: Result<u64, ParseError>)
    ensures
        gives(r, final(lex)@, get_u64_field(old(lex)@, key@)),
{
    match lex.expect_key(key) {
        Ok(_) => lex.read_u64(),
        Err(e) => Err(e),
    }
}

/// The field `key` with a long number is read back.
pub proof fn lemma_u64_field(l: LexView, key: Seq<char>, v: u64, k: Seq<char>)
    requires
        l.rest == field(key, u64_text(v)) + k,
        is_name(key),
        at_blank(k),
    ensures
        reads(get_u64_field(l, key), v, k),
        at_blank(l.rest),
{
    lemma_blank_ends(k);
    lemma_values_start(
        v as nat,
        IRVarId(0),
        Seq::empty(),
        Seq::empty(),
        Constant { hi: 0, lo: 0 },
        IRBlockTargetId::Return,
        Seq::empty(),
        k,
    );
    lemma_key(l, key, u64_text(v), k);
    lemma_u64(get_key(l, key)->Ok_0.1, v, k);
}

/// The field `key` with a variable.
pub open spec fn get_var_field(l: LexView, key: Seq<char>) -> Parsed<IRVarId> {
    match get_key(l, key) {
        Ok((_, l)) => get_var_id(l),
        Err(e) => Err(e),
    }
}

/// Append the field `key` with a variable.
pub fn put_var_field(w: &mut String, key: &str, v: IRVarId)
    ensures
        final(w)@ == old(w)@ + field(key@, var_text(v)),
{
    put_key(w, key);
    put_var(w, v);
    assert(w@ =~= old(w)@ + field(key@, var_text(v)));
}

/// Read the field `key` with a variable.
pub fn read_var_field(lex: &mut Lexer, key: &str) -> (r: Result<IRVarId, ParseError>)
    ensures
        gives(r, final(lex)@, get_var_field(old(lex)@, key@)),
{
    match lex.expect_key(key) {
        Ok(_) => read_var_id(lex),
        Err(e) => Err(e),
    }
}

/// The field `key` with a variable is read back.
pub proof fn lemma_var_field(l: LexView, key: Seq<char>, v: IRVarId, k: Seq<char>)
    requires
        l.rest == field(key, var_text(v)) + k,
        is_name(key),
        at_blank(k),
    ensures
        reads(get_var_field(l, key), v, k),
        at_blank(l.rest),
{
    lemma_blank_ends(k);
    lemma_values_start(
        0,
        v,
        Seq::empty(),
        Seq::empty(),
        Constant { hi: 0, lo: 0 },
        IRBlockTargetId::Return,
        Seq::empty(),
        k,
    );
    lemma_key(l, key, var_text(v), k);
    lemma_var_id(get_key(l, key)->Ok_0.1, v, k);
}

/// The field `key` with a type.
pub open spec fn get_type_field(l: LexView, key: Seq<char>) -> Parsed<IRTypeId> {
    match get_key(l, key) {
        Ok((_, l)) => get_type(l),
        Err(e) => Err(e),
    }
}

/// Append the field `key` with a type.
pub fn put_type_field(w: &mut String, key: &str, v: IRTypeId)
    ensures
        final(w)@ == old(w)@ + field(key@, type_text(v)),
{
    put_key(w, key);
    push_dec(w, v.0 as u128);
    assert(w@ =~= old(w)@ + field(key@, type_text(v)));
}

/// Read the field `key` with a type.
pub fn read_type_field(lex: &mut Lexer, key: &str) -> (r: Result<IRTypeId, ParseError>)
    ensures
        gives(r, final(lex)@, get_type_field(old(lex)@, key@)),
{
    match lex.expect_key(key) {
        Ok(_) => read_type(lex),
        Err(e) => Err(e),
    }
}

/// The field `key` with a type is read back.
pub proof fn lemma_type_field(l: LexView, key: Seq<char>, v: IRTypeId, k: Seq<char>)
    requires
        l.rest == field(key, type_text(v)) + k,
        is_name(key),
        at_blank(k),
    ensures
        reads(get_type_field(l, key), v, k),
        at_blank(l.rest),
{
    lemma_blank_ends(k);
    lemma_values_start(
        v.0 as nat,
        IRVarId(0),
        Seq::empty(),
        Seq::empty(),
        Constant { hi: 0, lo: 0 },
        IRBlockTargetId::Return,
        Seq::empty(),
        k,
    );
    lemma_key(l, key, type_text(v), k);
    lemma_type(get_key(l, key)->Ok_0.1, v, k);
}

/// The field `key` with a storage space.
pub open spec fn get_storage_field(l: LexView, key: Seq<char>) -> Parsed<StorageId> {
    match get_key(l, key) {
        Ok((_, l)) => get_storage(l),
        Err(e) => Err(e),
    }
}

/// Append the field `key` with a storage space.
pub fn put_storage_field(w: &mut String, key: &str, v: StorageId)
    ensures
        final(w)@ == old(w)@ + field(key@, storage_text(v)),
{
    put_key(w, key);
    push_dec(w, v.0 as u128);
    assert(w@ =~= old(w)@ + field(key@, storage_text(v)));
}

/// Read the field `key` with a storage space.
pub fn read_storage_field(lex: &mut Lexer, key: &str) -> (r: Result<StorageId, ParseError>)
    ensures
        gives(r, final(lex)@, get_storage_field(old(lex)@, key@)),
{
    match lex.expect_key(key) {
        Ok(_) => read_storage(lex),
        Err(e) => Err(e),
    }
}

/// The field `key` with a storage space is read back.
pub proof fn lemma_storage_field(l: LexView, key: Seq<char>, v: StorageId, k: Seq<char>)
    requires
        l.rest == field(key, storage_text(v)) + k,
        is_name(key),
        at_blank(k),
    ensures
        reads(get_storage_field(l, key), v, k),
        at_blank(l.rest),
{
    lemma_blank_ends(k);
    lemma_values_start(
        v.0 as nat,
        IRVarId(0),
        Seq::empty(),
        Seq::empty(),
        Constant { hi: 0, lo: 0 },
        IRBlockTargetId::Return,
        Seq::empty(),
        k,
    );
    lemma_key(l, key, storage_text(v), k);
    lemma_storage(get_key(l, key)->Ok_0.1, v, k);
}

/// The field `key` with a storage lane.
pub open spec fn get_lane_field(l: LexView, key: Seq<char>) -> Parsed<LaneId> {
    match get_key(l, key) {
        Ok((_, l)) => get_lane(l),
        Err(e) => Err(e),
    }
}

/// Append the field `key` with a storage lane.
pub fn put_lane_field(w: &mut String, key: &str, v: LaneId)
    ensures
        final(w)@ == old(w)@ + field(key@, lane_text(v)),
{
    put_key(w, key);
    push_dec(w, v.0 as u128);
    assert(w@ =~= old(w)@ + field(key@, lane_text(v)));
}

/// Read the field `key` with a storage lane.
pub fn read_lane_field(lex: &mut Lexer, key: &str) -> (r: Result<LaneId, ParseError>)
    ensures
        gives(r, final(lex)@, get_lane_field(old(lex)@, key@)),
{
    match lex.expect_key(key) {
        Ok(_) => read_lane(lex),
        Err(e) => Err(e),
    }
}

/// The field `key` with a storage lane is read back.
pub proof fn lemma_lane_field(l: LexView, key: Seq<char>, v: LaneId, k: Seq<char>)
    requires
        l.rest == field(key, lane_text(v)) + k,
        is_name(key),
        at_blank(k),
    ensures
        reads(get_lane_field(l, key), v, k),
        at_blank(l.rest),
{
    lemma_blank_ends(k);
    lemma_values_start(
        v.0 as nat,
        IRVarId(0),
        Seq::empty(),
        Seq::empty(),
        Constant { hi: 0, lo: 0 },
        IRBlockTargetId::Return,
        Seq::empty(),
        k,
    );
    lemma_key(l, key, lane_text(v), k);
    lemma_lane(get_key(l, key)->Ok_0.1, v, k);
}

/// The field `key` with variables.
pub open spec fn get_vars_field(l: LexView, key: Seq<char>) -> Parsed<Seq<IRVarId>> {
    match get_key(l, key) {
        Ok((_, l)) => get_vars(l),
        Err(e) => Err(e),
    }
}

/// Append the field `key` with variables.
pub fn put_vars_field(w: &mut String, key: &str, v: &Vec<IRVarId>)
    ensures
        final(w)@ == old(w)@ + field(key@, vars_text(v@)),
{
    put_key(w, key);
    put_vars(w, v);
    assert(w@ =~= old(w)@ + field(key@, vars_text(v@)));
}

/// Read the field `key` with variables.
pub fn read_vars_field(lex: &mut Lexer, key: &str) -> (r: Result<Vec<IRVarId>, ParseError>)
    ensures
        gives_view(r, final(lex)@, get_vars_field(old(lex)@, key@)),
{
    match lex.expect_key(key) {
        Ok(_) => read_vars(lex),
        Err(e) => Err(e),
    }
}

/// The field `key` with variables is read back.
pub proof fn lemma_vars_field(l: LexView, key: Seq<char>, v: Seq<IRVarId>, k: Seq<char>)
    requires
        l.rest == field(key, vars_text(v)) + k,
        is_name(key),
        at_blank(k),
    ensures
        reads(get_vars_field(l, key), v, k),
        at_blank(l.rest),
{
    lemma_blank_ends(k);
    lemma_values_start(
        0,
        IRVarId(0),
        v,
        Seq::empty(),
        Constant { hi: 0, lo: 0 },
        IRBlockTargetId::Return,
        Seq::empty(),
        k,
    );
    lemma_key(l, key, vars_text(v), k);
    lemma_vars(get_key(l, key)->Ok_0.1, v, k);
}

/// The field `key` with types.
pub open spec fn get_types_field(l: LexView, key: Seq<char>) -> Parsed<Seq<IRTypeId>> {
    match get_key(l, key) {
        Ok((_, l)) => get_types(l),
        Err(e) => Err(e),
    }
}

/// Append the field `key` with types.
pub fn put_types_field(w: &mut String, key: &str, v: &Vec<IRTypeId>)
    ensures
        final(w)@ == old(w)@ + field(key@, types_text(v@)),
{
    put_key(w, key);
    put_types(w, v);
    assert(w@ =~= old(w)@ + field(key@, types_text(v@)));
}

/// Read the field `key` with types.
pub fn read_types_field(lex: &mut Lexer, key: &str) -> (r: Result<Vec<IRTypeId>, ParseError>)
    ensures
        gives_view(r, final(lex)@, get_types_field(old(lex)@, key@)),
{
    match lex.expect_key(key) {
        Ok(_) => read_types(lex),
        Err(e) => Err(e),
    }
}

/// The field `key` with types is read back.
pub proof fn lemma_types_field(l: LexView, key: Seq<char>, v: Seq<IRTypeId>, k: Seq<char>)
    requires
        l.rest == field(key, types_text(v)) + k,
        is_name(key),
        at_blank(k),
    ensures
        reads(get_types_field(l, key), v, k),
        at_blank(l.rest),
{
    lemma_blank_ends(k);
    lemma_values_start(
        0,
        IRVarId(0),
        Seq::empty(),
        v,
        Constant { hi: 0, lo: 0 },
        IRBlockTargetId::Return,
        Seq::empty(),
        k,
    );
    lemma_key(l, key, types_text(v), k);
    lemma_types(get_key(l, key)->Ok_0.1, v, k);
}

/// The field `key` with a constant.
pub open spec fn get_constant_field(l: LexView, key: Seq<char>) -> Parsed<Constant> {
    match get_key(l, key) {
        Ok((_, l)) => get_constant(l),
        Err(e) => Err(e),
    }
}

/// Append the field `key` with a constant.
pub fn put_constant_field(w: &mut String, key: &str, v: Constant)
    ensures
        final(w)@ == old(w)@ + field(key@, constant_text(v)),
{
    put_key(w, key);
    put_constant(w, &v);
    assert(w@ =~= old(w)@ + field(key@, constant_text(v)));
}

/// Read the field `key` with a constant.
pub fn read_constant_field(lex: &mut Lexer, key: &str) -> (r: Result<Constant, ParseError>)
    ensures
        gives(r, final(lex)@, get_constant_field(old(lex)@, key@)),
{
    match lex.expect_key(key) {
        Ok(_) => read_constant(lex),
        Err(e) => Err(e),
    }
}

/// The field `key` with a constant is read back.
pub proof fn lemma_constant_field(l: LexView, key: Seq<char>, v: Constant, k: Seq<char>)
    requires
        l.rest == field(key, constant_text(v)) + k,
        is_name(key),
        at_blank(k),
    ensures
        reads(get_constant_field(l, key), v, k),
        at_blank(l.rest),
{
    lemma_blank_ends(k);
    lemma_values_start(
        0,
        IRVarId(0),
        Seq::empty(),
        Seq::empty(),
        v,
        IRBlockTargetId::Return,
        Seq::empty(),
        k,
    );
    lemma_key(l, key, constant_text(v), k);
    lemma_constant(get_key(l, key)->Ok_0.1, v, k);
}

/// The field `key` with a destination.
pub open spec fn get_target_field(l: LexView, key: Seq<char>) -> Parsed<IRBlockTargetId> {
    match get_key(l, key) {
        Ok((_, l)) => get_target(l),
        Err(e) => Err(e),
    }
}

/// Append the field `key` with a destination.
pub fn put_target_field(w: &mut String, key: &str, v: IRBlockTargetId)
    ensures
        final(w)@ == old(w)@ + field(key@, target_text(v)),
{
    put_key(w, key);
    put_target(w, &v);
    assert(w@ =~= old(w)@ + field(key@, target_text(v)));
}

/// Read the field `key` with a destination.
pub fn read_target_field(lex: &mut Lexer, key: &str) -> (r: Result<IRBlockTargetId, ParseError>)
    ensures
        gives(r, final(lex)@, get_target_field(old(lex)@, key@)),
{
    match lex.expect_key(key) {
        Ok(_) => read_target(lex),
        Err(e) => Err(e),
    }
}

/// The field `key` with a destination is read back.
pub proof fn lemma_target_field(l: LexView, key: Seq<char>, v: IRBlockTargetId, k: Seq<char>)
    requires
        l.rest == field(key, target_text(v)) + k,
        is_name(key),
        at_blank(k),
    ensures
        reads(get_target_field(l, key), v, k),
        at_blank(l.rest),
{
    lemma_blank_ends(k);
    lemma_values_start(
        0,
        IRVarId(0),
        Seq::empty(),
        Seq::empty(),
        Constant { hi: 0, lo: 0 },
        v,
        Seq::empty(),
        k,
    );
    lemma_key(l, key, target_text(v), k);
    lemma_target(get_key(l, key)->Ok_0.1, v, k);
}

/// Fields take at least one character.
pub broadcast proof fn lemma_fields_shrink(l: LexView, key: Seq<char>)
    ensures
        get_usize_field(l, key) matches Ok((_, m)) ==> m.rest.len() < l.rest.len(),
        get_u64_field(l, key) matches Ok((_, m)) ==> m.rest.len() < l.rest.len(),
        get_var_field(l, key) matches Ok((_, m)) ==> m.rest.len() < l.rest.len(),
        get_type_field(l, key) matches Ok((_, m)) ==> m.rest.len() < l.rest.len(),
        get_storage_field(l, key) matches Ok((_, m)) ==> m.rest.len() < l.rest.len(),
        get_lane_field(l, key) matches Ok((_, m)) ==> m.rest.len() < l.rest.len(),
        get_vars_field(l, key) matches Ok((_, m)) ==> m.rest.len() < l.rest.len(),
        get_types_field(l, key) matches Ok((_, m)) ==> m.rest.len() < l.rest.len(),
        get_constant_field(l, key) matches Ok((_, m)) ==> m.rest.len() < l.rest.len(),
        get_target_field(l, key) matches Ok((_, m)) ==> m.rest.len() < l.rest.len(),
        #[trigger] get_key(l, key) matches Ok((_, m)) ==> m.rest.len() < l.rest.len(),
{
    broadcast use {group_shrinks, lemma_values_shrink};

}

/// Append a name behind a blank.
pub fn put_spaced_name(w: &mut String, v: &String)
    ensures
        final(w)@ == old(w)@ + spaced(name_text(v@)),
{
    w.push(' ');
    put_name(w, v);
    assert(w@ =~= old(w)@ + spaced(name_text(v@)));
}

/// A name behind a blank is read back.
pub proof fn lemma_spaced_name(l: LexView, v: Seq<char>, k: Seq<char>)
    requires
        l.rest == spaced(name_text(v)) + k,
    ensures
        reads(get_name(l), v, k),
        at_blank(l.rest),
{
    assert((name_text(v) + k)[0] == '"');
    lemma_spaced(l, name_text(v), k);
    lemma_field_blank(Seq::empty(), name_text(v), k);
    lemma_name(l, v, k);
}

/// Append a variable behind a blank.
pub fn put_spaced_var(w: &mut String, v: IRVarId)
    ensures
        final(w)@ == old(w)@ + spaced(var_text(v)),
{
    w.push(' ');
    put_var(w, v);
    assert(w@ =~= old(w)@ + spaced(var_text(v)));
}

/// A variable behind a blank is read back.
pub proof fn lemma_spaced_var(l: LexView, v: IRVarId, k: Seq<char>)
    requires
        l.rest == spaced(var_text(v)) + k,
        at_blank(k),
    ensures
        reads(get_var_id(l), v, k),
        at_blank(l.rest),
{
    lemma_blank_ends(k);
    assert((var_text(v) + k)[0] == 'v');
    lemma_spaced(l, var_text(v), k);
    lemma_field_blank(Seq::empty(), var_text(v), k);
    lemma_var_id(l, v, k);
}

/// Append a constant behind a blank.
pub fn put_spaced_constant(w: &mut String, v: &Constant)
    ensures
        final(w)@ == old(w)@ + spaced(constant_text(*v)),
{
    w.push(' ');
    put_constant(w, v);
    assert(w@ =~= old(w)@ + spaced(constant_text(*v)));
}

/// A constant behind a blank is read back.
pub proof fn lemma_spaced_constant(l: LexView, v: Constant, k: Seq<char>)
    requires
        l.rest == spaced(constant_text(v)) + k,
        at_blank(k),
    ensures
        reads(get_constant(l), v, k),
        at_blank(l.rest),
{
    lemma_blank_ends(k);
    assert((constant_text(v) + k)[0] == '0');
    lemma_spaced(l, constant_text(v), k);
    lemma_field_blank(Seq::empty(), constant_text(v), k);
    lemma_constant(l, v, k);
}

/// Append a destination behind a blank.
pub fn put_spaced_target(w: &mut String, v: &IRBlockTargetId)
    ensures
        final(w)@ == old(w)@ + spaced(target_text(*v)),
{
    w.push(' ');
    put_target(w, v);
    assert(w@ =~= old(w)@ + spaced(target_text(*v)));
}

/// A destination behind a blank is read back.
pub proof fn lemma_spaced_target(l: LexView, v: IRBlockTargetId, k: Seq<char>)
    requires
        l.rest == spaced(target_text(v)) + k,
        at_blank(k),
    ensures
        reads(get_target(l), v, k),
        at_blank(l.rest),
{
    lemma_blank_ends(k);
    lemma_values_start(
        0,
        IRVarId(0),
        Seq::empty(),
        Seq::empty(),
        Constant { hi: 0, lo: 0 },
        v,
        Seq::empty(),
        k,
    );
    lemma_spaced(l, target_text(v), k);
    lemma_field_blank(Seq::empty(), target_text(v), k);
    lemma_target(l, v, k);
}

/// Append types behind a blank.
pub fn put_spaced_types(w: &mut String, v: &Vec<IRTypeId>)
    ensures
        final(w)@ == old(w)@ + spaced(types_text(v@)),
{
    w.push(' ');
    put_types(w, v);
    assert(w@ =~= old(w)@ + spaced(types_text(v@)));
}

/// Types behind a blank are read back.
pub proof fn lemma_spaced_types(l: LexView, v: Seq<IRTypeId>, k: Seq<char>)
    requires
        l.rest == spaced(types_text(v)) + k,
    ensures
        reads(get_types(l), v, k),
        at_blank(l.rest),
{
    assert((types_text(v) + k)[0] == '[');
    lemma_spaced(l, types_text(v), k);
    lemma_field_blank(Seq::empty(), types_text(v), k);
    lemma_types(l, v, k);
}

/// Append a number behind a blank.
pub fn put_spaced_number(w: &mut String, v: u128)
    ensures
        final(w)@ == old(w)@ + spaced(dec(v as nat)),
{
    w.push(' ');
    push_dec(w, v);
    assert(w@ =~= old(w)@ + spaced(dec(v as nat)));
}

/// A number behind a blank is read back.
pub proof fn lemma_spaced_number(l: LexView, v: nat, max: nat, k: Seq<char>)
    requires
        l.rest == spaced(dec(v)) + k,
        ends_number(k),
        v <= max,
    ensures
        reads(crate::text::lexer::get_number(l, max), v, k),
        at_blank(l.rest),
{
    lemma_digits(v, 10);
    assert((dec(v) + k)[0] == dec(v)[0]);
    lemma_spaced(l, dec(v), k);
    lemma_field_blank(Seq::empty(), dec(v), k);
    lemma_dec(l, v, max, k);
}

} // verus!
