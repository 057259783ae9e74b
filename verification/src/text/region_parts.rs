//! What the sections on regions and gadgets share: ranges, sets of regions,
//! selectors and random sources.

use vstd::prelude::*;

use crate::fmt::{dec, push_dec};
use crate::region::{
    ascending, law_ascending_set, region_set, RegionId, RegionSelector, RegionSet, SelectorView,
};
use crate::text::error::{ErrorView, ParseError};
use crate::text::fields::{put_list, put_name};
use crate::text::lexer::{
    byte_count, get_char, get_ident, get_list, get_string, get_u32, get_u64, gives, gives_view,
    group_shrinks, in_word, is_blank, is_word, lemma_skipped_shrinks, lemma_word_len, try_char,
    try_word, word_len, LexView, Lexer, Parsed,
};
use crate::text::pieces::{
    at_token, quoted, ends_number, is_name, lemma_at_token, lemma_char,
    lemma_dec, lemma_digits, lemma_joined, lemma_list, lemma_past_blank, lemma_quoted, lemma_word, list_text,
    reads,
};

verus! {

/// The token behind blanks is the next one.
pub proof fn lemma_past_blanks(l: LexView, b: Seq<char>, t: Seq<char>)
    requires
        l.rest == b + t,
        forall|i: int| 0 <= i < b.len() ==> is_blank(#[trigger] b[i]),
        at_token(t),
    ensures
        l.skipped().rest == t,
    decreases b.len(),
{
    if b.len() == 0 {
        assert(l.rest =~= t);
        lemma_at_token(l);
    } else {
        assert(l.rest[0] == b[0]);
        let m = l.advanced();
        let c = b.drop_first();
        assert(m.rest =~= c + t);
        assert forall|i: int| 0 <= i < c.len() implies is_blank(#[trigger] c[i]) by {
            assert(c[i] == b[i + 1]);
        }
        lemma_past_blanks(m, c, t);
    }
}

/// Nothing is left to skip behind what was skipped.
pub proof fn lemma_skipped_twice(l: LexView)
    ensures
        l.skipped().skipped() == l.skipped(),
{
    lemma_skipped_shrinks(l);
    lemma_at_token(l.skipped());
}

// ---------------------------------------------------------------------------
// Ranges
// ---------------------------------------------------------------------------

/// A range: its first position and the one behind its last.
pub open spec fn range_text(start: nat, end: nat) -> Seq<char> {
    seq!['['] + (dec(start) + (seq![',', ' '] + (dec(end) + seq![')'])))
}

/// A range.
pub open spec fn get_range(l: LexView) -> Parsed<(u64, u64)> {
    match get_char(l, '[') {
        Err(e) => Err(e),
        Ok((_, l)) => match get_u64(l) {
            Err(e) => Err(e),
            Ok((start, l)) => match get_char(l, ',') {
                Err(e) => Err(e),
                Ok((_, l)) => match get_u64(l) {
                    Err(e) => Err(e),
                    Ok((end, l)) => match get_char(l, ')') {
                        Err(e) => Err(e),
                        Ok((_, l)) => Ok(((start, end), l)),
                    },
                },
            },
        },
    }
}

/// A range by its first position and the number of its positions, neither of
/// them above `max`. A range that ends before it starts has none.
pub open spec fn get_span(l: LexView, max: u64, wrong: Seq<char>) -> Parsed<(u64, u64)> {
    match get_range(l) {
        Err(e) => Err(e),
        Ok((r, l)) => {
            let n: u64 = if r.1 >= r.0 {
                (r.1 - r.0) as u64
            } else {
                0
            };
            if r.0 > max || n > max {
                Err(ErrorView::InvalidInt(wrong))
            } else {
                Ok(((r.0, n), l))
            }
        },
    }
}

/// Append a range.
pub fn put_range(w: &mut String, start: u64, end: u64)
    ensures
        final(w)@ == old(w)@ + range_text(start as nat, end as nat),
{
    broadcast use lemma_joined;

    let ghost b = w@;
    w.push('[');
    assert(w@ =~= b + seq!['[']);
    push_dec(w, start as u128);
    let ghost c = w@;
    w.push(',');
    w.push(' ');
    assert(w@ =~= c + seq![',', ' ']);
    push_dec(w, end as u128);
    let ghost d = w@;
    w.push(')');
    assert(w@ =~= d + seq![')']);
}

fn read_range(lex: &mut Lexer) -> (r: Result<(u64, u64), ParseError>)
    ensures
        gives(r, final(lex)@, get_range(old(lex)@)),
{
    match lex.expect('[') {
        Ok(_) => {},
        Err(e) => {
            return Err(e);
        },
    }
    let start: u64 = match lex.read_u64() {
        Ok(x) => x,
        Err(e) => {
            return Err(e);
        },
    };
    match lex.expect(',') {
        Ok(_) => {},
        Err(e) => {
            return Err(e);
        },
    }
    let end: u64 = match lex.read_u64() {
        Ok(x) => x,
        Err(e) => {
            return Err(e);
        },
    };
    match lex.expect(')') {
        Ok(_) => Ok((start, end)),
        Err(e) => Err(e),
    }
}

/// Read a range by its first position and the number of its positions.
pub fn read_span(lex: &mut Lexer, max: u64, wrong: &str) -> (r: Result<(u64, u64), ParseError>)
    ensures
        gives(r, final(lex)@, get_span(old(lex)@, max, wrong@)),
{
    match read_range(lex) {
        Ok((start, end)) => {
            let n: u64 = if end >= start {
                end - start
            } else {
                0
            };
            if start > max || n > max {
                Err(ParseError::InvalidInt(wrong.to_owned()))
            } else {
                Ok((start, n))
            }
        },
        Err(e) => Err(e),
    }
}

/// A range ends further on than it starts.
pub proof fn lemma_span_shrinks(l: LexView, max: u64, wrong: Seq<char>)
    ensures
        get_span(l, max, wrong) matches Ok((_, m)) ==> m.rest.len() < l.rest.len(),
{
    broadcast use group_shrinks;

}

/// A range is read back.
pub proof fn lemma_span(l: LexView, s: u64, n: u64, max: u64, wrong: Seq<char>, k: Seq<char>)
    requires
        s <= max,
        n <= max,
        s + n <= u64::MAX,
        l.skipped().rest == range_text(s as nat, (s + n) as nat) + k,
    ensures
        reads(get_span(l, max, wrong), (s, n), k),
{
    lemma_range(l, s, (s + n) as u64, k);
}

proof fn lemma_range(l: LexView, s: u64, e: u64, k: Seq<char>)
    requires
        l.skipped().rest == range_text(s as nat, e as nat) + k,
    ensures
        reads(get_range(l), (s, e), k),
{
    let end = e as nat;
    let k3 = seq![')'] + k;
    let k2 = dec(end) + k3;
    let k1 = seq![',', ' '] + k2;
    let k0 = dec(s as nat) + k1;
    assert(range_text(s as nat, end) + k == seq!['['] + k0) by {
        broadcast use lemma_joined;

    }
    lemma_char(l, '[', k0);
    let l0 = get_char(l, '[')->Ok_0.1;
    assert(k1[0] == ',');
    lemma_digits(s as nat, 10);
    assert(k0[0] == dec(s as nat)[0]);
    lemma_at_token(l0);
    lemma_dec(l0, s as nat, u64::MAX as nat, k1);
    let l1 = get_u64(l0)->Ok_0.1;
    lemma_at_token(l1);
    let sp = seq![' '] + k2;
    assert(k1 =~= seq![','] + sp);
    lemma_char(l1, ',', sp);
    let l2 = get_char(l1, ',')->Ok_0.1;
    lemma_digits(end, 10);
    assert(k2[0] == dec(end)[0]);
    lemma_past_blank(l2, ' ', k2);
    assert(k3[0] == ')');
    lemma_dec(l2, end, u64::MAX as nat, k3);
    let l3 = get_u64(l2)->Ok_0.1;
    lemma_at_token(l3);
    lemma_char(l3, ')', k);
}

// ---------------------------------------------------------------------------
// Numbers behind letters
// ---------------------------------------------------------------------------

/// A number behind a blank and a letter.
pub open spec fn mark_text(c: char, n: u32) -> Seq<char> {
    seq![' ', c] + dec(n as nat)
}

/// A number behind a letter.
pub open spec fn get_mark(l: LexView, c: char) -> Parsed<u32> {
    match get_char(l, c) {
        Err(e) => Err(e),
        Ok((_, l)) => get_u32(l),
    }
}

/// Append a number behind a blank and a letter.
pub fn put_mark(w: &mut String, c: char, n: u32)
    ensures
        final(w)@ == old(w)@ + mark_text(c, n),
{
    w.push(' ');
    w.push(c);
    push_dec(w, n as u128);
    assert(w@ =~= old(w)@ + mark_text(c, n));
}

/// Read a number behind a letter, which has one byte.
pub fn read_mark(lex: &mut Lexer, c: char) -> (r: Result<u32, ParseError>)
    requires
        byte_count(c) == 1,
    ensures
        gives(r, final(lex)@, get_mark(old(lex)@, c)),
{
    match lex.expect(c) {
        Ok(_) => lex.read_u32(),
        Err(e) => Err(e),
    }
}

/// A number behind a letter ends further on than it starts.
pub proof fn lemma_mark_shrinks(l: LexView, c: char)
    ensures
        get_mark(l, c) matches Ok((_, m)) ==> m.rest.len() < l.rest.len(),
{
    broadcast use group_shrinks;

}

/// A number behind a letter is read back.
pub proof fn lemma_mark(l: LexView, c: char, n: u32, k: Seq<char>)
    requires
        !is_blank(c) && c != ';',
        l.rest == mark_text(c, n) + k,
        ends_number(k),
    ensures
        reads(get_mark(l, c), n, k),
{
    let d = dec(n as nat) + k;
    assert(l.rest =~= seq![' '] + (seq![c] + d));
    assert((seq![c] + d)[0] == c);
    lemma_past_blank(l, ' ', seq![c] + d);
    lemma_char(l, c, d);
    let m = get_char(l, c)->Ok_0.1;
    lemma_digits(n as nat, 10);
    assert(d[0] == dec(n as nat)[0]);
    lemma_at_token(m);
    lemma_dec(m, n as nat, u32::MAX as nat, k);
}

// ---------------------------------------------------------------------------
// Sections
// ---------------------------------------------------------------------------

/// The state behind the word of a section and its opening brace.
pub open spec fn opened(l: LexView, word: Seq<char>) -> Option<LexView> {
    match get_ident(l) {
        Ok((w, l1)) => if w == word {
            match get_char(l1, '{') {
                Ok((_, l2)) => Some(l2),
                Err(_) => None,
            }
        } else {
            None
        },
        Err(_) => None,
    }
}

/// The word of a section is read back.
pub proof fn lemma_opened(l: LexView, word: Seq<char>, k: Seq<char>)
    requires
        is_name(word),
        l.rest == word + (seq![' ', '{', '\n'] + k),
    ensures
        reads(get_ident(l), word, seq![' ', '{', '\n'] + k),
        opened(l, word) is Some,
        Ok::<((), LexView), ErrorView>(((), opened(l, word)->0)) == get_char(
            get_ident(l)->Ok_0.1,
            '{',
        ),
{
    let t = seq![' ', '{', '\n'] + k;
    assert(t[0] == ' ');
    assert(l.rest[0] == word[0]);
    lemma_at_token(l);
    lemma_word(l, word, t);
    let m = get_ident(l)->Ok_0.1;
    let s = seq!['\n'] + k;
    assert(t =~= seq![' '] + (seq!['{'] + s));
    assert((seq!['{'] + s)[0] == '{');
    lemma_past_blank(m, ' ', seq!['{'] + s);
    lemma_char(m, '{', s);
}

// ---------------------------------------------------------------------------
// Sets of regions
// ---------------------------------------------------------------------------

/// The numbers of regions.
pub open spec fn region_numbers(s: Seq<RegionId>) -> Seq<u32> {
    s.map_values(|r: RegionId| r.0)
}

/// The regions with these numbers.
pub open spec fn numbered_regions(s: Seq<u32>) -> Seq<RegionId> {
    s.map_values(|n: u32| RegionId(n))
}

/// Regions between braces.
pub open spec fn ids_text(s: Seq<RegionId>) -> Seq<char> {
    list_text(region_numbers(s), false, true, '{', '}')
}

/// Regions between square brackets.
pub open spec fn id_list_text(s: Seq<RegionId>) -> Seq<char> {
    list_text(region_numbers(s), false, true, '[', ']')
}

/// A set of regions, which must not be empty.
pub open spec fn get_ids(l: LexView) -> Parsed<Seq<RegionId>> {
    match get_list(l, false, '{', '}') {
        Err(e) => Err(e),
        Ok((ids, l)) => if ids.len() == 0 {
            Err(ErrorView::EmptyRegionSet)
        } else {
            Ok((region_set(numbered_regions(ids)), l))
        },
    }
}

fn numbers(s: &RegionSet) -> (r: Vec<u32>)
    ensures
        r@ == region_numbers(s@),
{
    let mut out: Vec<u32> = Vec::new();
    let mut i: usize = 0;
    while i < s.len()
        invariant
            i <= s@.len(),
            out@ == region_numbers(s@.take(i as int)),
        decreases s@.len() - i,
    {
        out.push(s.at(i).0);
        assert(out@ =~= region_numbers(s@.take(i + 1)));
        i += 1;
    }
    assert(s@.take(i as int) =~= s@);
    assert(region_numbers(s@.take(0)) =~= Seq::empty());
    out
}

/// The set of the regions with these numbers.
fn set_of(ids: &Vec<u32>) -> (r: RegionSet)
    ensures
        r@ == region_set(numbered_regions(ids@)),
{
    let mut out: Vec<RegionId> = Vec::new();
    let mut i: usize = 0;
    while i < ids.len()
        invariant
            i <= ids@.len(),
            out@ == numbered_regions(ids@.take(i as int)),
        decreases ids@.len() - i,
    {
        out.push(RegionId(ids[i]));
        assert(out@ =~= numbered_regions(ids@.take(i + 1)));
        i += 1;
    }
    assert(ids@.take(i as int) =~= ids@);
    RegionSet::from_ids(out.as_slice())
}

/// Append a set of regions.
pub fn put_ids(w: &mut String, s: &RegionSet)
    ensures
        final(w)@ == old(w)@ + ids_text(s@),
{
    let v: Vec<u32> = numbers(s);
    put_list(w, &v, false, true, '{', '}');
}

/// Read a set of regions.
pub fn read_ids(lex: &mut Lexer) -> (r: Result<RegionSet, ParseError>)
    ensures
        gives_view(r, final(lex)@, get_ids(old(lex)@)),
{
    match lex.read_u32_set() {
        Ok(ids) => {
            if ids.len() == 0 {
                Err(ParseError::EmptyRegionSet)
            } else {
                Ok(set_of(&ids))
            }
        },
        Err(e) => Err(e),
    }
}

/// A set of regions is read back.
pub proof fn lemma_ids(l: LexView, s: Seq<RegionId>, k: Seq<char>)
    requires
        ascending(s),
        s.len() > 0,
        l.skipped().rest == ids_text(s) + k,
    ensures
        reads(get_ids(l), s, k),
{
    lemma_list(l, region_numbers(s), false, true, '{', '}', k);
    assert(numbered_regions(region_numbers(s)) =~= s);
    law_ascending_set(s);
}

/// Regions between square brackets are read back.
proof fn lemma_id_list(l: LexView, s: Seq<RegionId>, k: Seq<char>)
    requires
        ascending(s),
        l.skipped().rest == id_list_text(s) + k,
    ensures
        reads(get_list(l, false, '[', ']'), region_numbers(s), k),
        region_set(numbered_regions(region_numbers(s))) == s,
{
    lemma_list(l, region_numbers(s), false, true, '[', ']', k);
    assert(numbered_regions(region_numbers(s)) =~= s);
    law_ascending_set(s);
}

// ---------------------------------------------------------------------------
// Selectors
// ---------------------------------------------------------------------------

/// A selector.
pub open spec fn selector_text(s: SelectorView) -> Seq<char> {
    seq!['{'] + ("all"@ + (seq!['='] + (id_list_text(s.all_of) + (seq![',', ' '] + ("none"@ + (
    seq!['='] + (id_list_text(s.none_of) + seq!['}'])))))))
}

/// The parts of a selector: the numbers of the regions that wires must be in,
/// and of those that they must not be in. The last part of a kind counts.
pub open spec fn get_selector_parts(l: LexView, so_far: (Seq<u32>, Seq<u32>)) -> Parsed<
    (Seq<u32>, Seq<u32>),
>
    decreases l.rest.len(),
{
    let (end, l1) = try_char(l, '}');
    if end {
        Ok((so_far, l1))
    } else {
        match get_ident(l1) {
            Err(e) => Err(e),
            Ok((kw, l2)) => if kw != "all"@ && kw != "none"@ {
                Err(ErrorView::UnknownDirective(kw))
            } else {
                match get_char(l2, '=') {
                    Err(e) => Err(e),
                    Ok((_, l3)) => match get_list(l3, false, '[', ']') {
                        Err(e) => Err(e),
                        Ok((ids, l4)) => {
                            let now = if kw == "all"@ {
                                (ids, so_far.1)
                            } else {
                                (so_far.0, ids)
                            };
                            let (more, l5) = try_char(l4, ',');
                            if more {
                                proof {
                                    broadcast use group_shrinks;

                                }
                                get_selector_parts(l5, now)
                            } else {
                                match get_char(l5, '}') {
                                    Err(e) => Err(e),
                                    Ok((_, l6)) => Ok((now, l6)),
                                }
                            }
                        },
                    },
                }
            },
        }
    }
}

/// A selector.
pub open spec fn get_selector(l: LexView) -> Parsed<SelectorView> {
    match get_char(l, '{') {
        Err(e) => Err(e),
        Ok((_, l)) => match get_selector_parts(l, (Seq::empty(), Seq::empty())) {
            Err(e) => Err(e),
            Ok((p, l)) => Ok(
                (
                    SelectorView {
                        all_of: region_set(numbered_regions(p.0)),
                        none_of: region_set(numbered_regions(p.1)),
                    },
                    l,
                ),
            ),
        },
    }
}

/// Append a selector.
pub fn put_selector(w: &mut String, s: &RegionSelector)
    ensures
        final(w)@ == old(w)@ + selector_text(s@),
{
    broadcast use lemma_joined;

    let ghost b = w@;
    w.push('{');
    assert(w@ =~= b + seq!['{']);
    w.push_str("all");
    let ghost c = w@;
    w.push('=');
    assert(w@ =~= c + seq!['=']);
    let all: Vec<u32> = numbers(&s.all_of);
    put_list(w, &all, false, true, '[', ']');
    let ghost d = w@;
    w.push(',');
    w.push(' ');
    assert(w@ =~= d + seq![',', ' ']);
    w.push_str("none");
    let ghost e = w@;
    w.push('=');
    assert(w@ =~= e + seq!['=']);
    let none: Vec<u32> = numbers(&s.none_of);
    put_list(w, &none, false, true, '[', ']');
    let ghost f = w@;
    w.push('}');
    assert(w@ =~= f + seq!['}']);
}

fn read_selector_parts(lex: &mut Lexer) -> (r: Result<(Vec<u32>, Vec<u32>), ParseError>)
    ensures
        match get_selector_parts(old(lex)@, (Seq::empty(), Seq::empty())) {
            Ok((p, m)) => r matches Ok(x) && x.0@ == p.0 && x.1@ == p.1 && final(lex)@ == m,
            Err(e) => r matches Err(x) && x@ == e,
        },
{
    let ghost whole = get_selector_parts(lex@, (Seq::empty(), Seq::empty()));
    let mut all: Vec<u32> = Vec::new();
    let mut none: Vec<u32> = Vec::new();
    loop
        invariant
            whole == get_selector_parts(old(lex)@, (Seq::empty(), Seq::empty())),
            whole == get_selector_parts(lex@, (all@, none@)),
        decreases lex@.rest.len(),
    {
        broadcast use group_shrinks;

        if lex.take('}') {
            return Ok((all, none));
        }
        let kw: String = match lex.read_ident() {
            Ok(kw) => kw,
            Err(e) => {
                return Err(e);
            },
        };
        let positive: bool = is_word(&kw, "all");
        if !positive && !is_word(&kw, "none") {
            return Err(ParseError::UnknownDirective(kw));
        }
        match lex.expect('=') {
            Ok(_) => {},
            Err(e) => {
                return Err(e);
            },
        }
        let ids: Vec<u32> = match lex.read_u32_list() {
            Ok(ids) => ids,
            Err(e) => {
                return Err(e);
            },
        };
        if positive {
            all = ids;
        } else {
            none = ids;
        }
        if !lex.take(',') {
            match lex.expect('}') {
                Ok(_) => {
                    return Ok((all, none));
                },
                Err(e) => {
                    return Err(e);
                },
            }
        }
    }
}

/// Read a selector.
pub fn read_selector(lex: &mut Lexer) -> (r: Result<RegionSelector, ParseError>)
    ensures
        gives_view(r, final(lex)@, get_selector(old(lex)@)),
{
    match lex.expect('{') {
        Ok(_) => {},
        Err(e) => {
            return Err(e);
        },
    }
    match read_selector_parts(lex) {
        Ok((all, none)) => Ok(RegionSelector { all_of: set_of(&all), none_of: set_of(&none) }),
        Err(e) => Err(e),
    }
}

proof fn lemma_selector_parts_shrinks(l: LexView, so_far: (Seq<u32>, Seq<u32>))
    ensures
        get_selector_parts(l, so_far) matches Ok((_, m)) ==> m.rest.len() < l.rest.len(),
    decreases l.rest.len(),
{
    broadcast use group_shrinks;

    let (end, l1) = try_char(l, '}');
    if !end {
        match get_ident(l1) {
            Err(_) => {},
            Ok((kw, l2)) => match get_char(l2, '=') {
                Err(_) => {},
                Ok((_, l3)) => match get_list(l3, false, '[', ']') {
                    Err(_) => {},
                    Ok((ids, l4)) => {
                        let now = if kw == "all"@ {
                            (ids, so_far.1)
                        } else {
                            (so_far.0, ids)
                        };
                        let (more, l5) = try_char(l4, ',');
                        if more {
                            lemma_selector_parts_shrinks(l5, now);
                        }
                    },
                },
            },
        }
    }
}

/// A selector ends further on than it starts.
pub proof fn lemma_selector_shrinks(l: LexView)
    ensures
        get_selector(l) matches Ok((_, m)) ==> m.rest.len() < l.rest.len(),
{
    broadcast use group_shrinks;

    match get_char(l, '{') {
        Err(_) => {},
        Ok((_, m)) => {
            lemma_selector_parts_shrinks(m, (Seq::empty(), Seq::empty()));
        },
    }
}

/// The words of a selector are words, and not the same.
proof fn lemma_selector_words()
    ensures
        is_name("all"@),
        is_name("none"@),
        "all"@ != "none"@,
        "all"@[0] == 'a',
        "none"@[0] == 'n',
{
    reveal_strlit("all");
    reveal_strlit("none");
}

/// One part of a selector is read back.
proof fn lemma_selector_part(
    l: LexView,
    word: Seq<char>,
    s: Seq<RegionId>,
    k: Seq<char>,
) -> (m: LexView)
    requires
        is_name(word),
        word[0] != '}',
        at_token(word),
        ascending(s),
        l.skipped().rest == word + (seq!['='] + (id_list_text(s) + k)),
    ensures
        !try_char(l, '}').0,
        reads(get_ident(try_char(l, '}').1), word, seq!['='] + (id_list_text(s) + k)),
        ({
            let l2 = get_ident(try_char(l, '}').1)->Ok_0.1;
            reads(get_char(l2, '='), (), id_list_text(s) + k) && reads(
                get_list(get_char(l2, '=')->Ok_0.1, false, '[', ']'),
                region_numbers(s),
                k,
            ) && m == get_list(get_char(l2, '=')->Ok_0.1, false, '[', ']')->Ok_0.1
        }),
        region_set(numbered_regions(region_numbers(s))) == s,
{
    let k2 = id_list_text(s) + k;
    let k1 = seq!['='] + k2;
    let t = word + k1;
    assert(t[0] == word[0]);
    let l1 = try_char(l, '}').1;
    lemma_at_token(l1);
    assert(k1[0] == '=');
    lemma_word(l1, word, k1);
    let l2 = get_ident(l1)->Ok_0.1;
    lemma_at_token(l2);
    lemma_char(l2, '=', k2);
    let l3 = get_char(l2, '=')->Ok_0.1;
    assert(k2[0] == '[');
    lemma_at_token(l3);
    lemma_id_list(l3, s, k);
    get_list(l3, false, '[', ']')->Ok_0.1
}

/// A selector is read back.
pub proof fn lemma_selector(l: LexView, s: SelectorView, k: Seq<char>)
    requires
        ascending(s.all_of),
        ascending(s.none_of),
        l.skipped().rest == selector_text(s) + k,
    ensures
        reads(get_selector(l), s, k),
{
    lemma_selector_words();
    let k4 = seq!['}'] + k;
    let k3 = "none"@ + (seq!['='] + (id_list_text(s.none_of) + k4));
    let k2 = seq![',', ' '] + k3;
    let k1 = "all"@ + (seq!['='] + (id_list_text(s.all_of) + k2));
    assert(selector_text(s) + k == seq!['{'] + k1) by {
        broadcast use lemma_joined;

    }
    lemma_char(l, '{', k1);
    let l1 = get_char(l, '{')->Ok_0.1;
    assert(k1[0] == 'a');
    lemma_at_token(l1);
    let l2 = lemma_selector_part(l1, "all"@, s.all_of, k2);
    assert(k2[0] == ',');
    lemma_at_token(l2);
    assert(k2 =~= seq![','] + (seq![' '] + k3));
    lemma_char(l2, ',', seq![' '] + k3);
    let l3 = try_char(l2, ',').1;
    assert(k3[0] == 'n');
    lemma_past_blank(l3, ' ', k3);
    let a = region_numbers(s.all_of);
    let n = region_numbers(s.none_of);
    let l4 = lemma_selector_part(l3, "none"@, s.none_of, k4);
    assert(k4[0] == '}');
    lemma_at_token(l4);
    assert(!try_char(l4, ',').0);
    lemma_char(l4, '}', k);
    let none: Seq<u32> = Seq::empty();
    assert(reads(get_selector_parts(l3, (a, none)), (a, n), k));
    assert(reads(get_selector_parts(l1, (none, none)), (a, n), k));
}

// ---------------------------------------------------------------------------
// Random sources
// ---------------------------------------------------------------------------

/// The random source of a binding, if it has one.
pub open spec fn rng_text(rng: Option<Seq<char>>) -> Seq<char> {
    match rng {
        Some(name) => seq![' '] + ("rng_source"@ + (seq!['='] + quoted(name))),
        None => Seq::empty(),
    }
}

/// The random source of a binding, if it has one.
pub open spec fn get_rng_source(l: LexView) -> Parsed<Option<Seq<char>>> {
    let (found, l1) = try_word(l.skipped(), "rng_source"@);
    if !found {
        Ok((None, l1))
    } else {
        match get_char(l1, '=') {
            Err(e) => Err(e),
            Ok((_, l2)) => match get_string(l2) {
                Err(e) => Err(e),
                Ok((name, l3)) => Ok((Some(name), l3)),
            },
        }
    }
}

/// A random source ends no further on than the text is long.
pub proof fn lemma_rng_source_shrinks(l: LexView)
    ensures
        get_rng_source(l) matches Ok((_, m)) ==> m.rest.len() <= l.rest.len(),
{
    broadcast use group_shrinks;

}

/// Append the random source of a binding, if it has one.
pub fn put_rng_source(w: &mut String, rng: &Option<String>)
    ensures
        final(w)@ == old(w)@ + rng_text(
            match *rng {
                Some(name) => Some(name@),
                None => None,
            },
        ),
{
    let ghost z = w@;
    match rng {
        Some(name) => {
            w.push(' ');
            w.push_str("rng_source");
            w.push('=');
            put_name(w, name);
            proof {
                let p1 = seq![' '];
                let p2 = "rng_source"@;
                let p3 = seq!['='];
                let p4 = quoted(name@);
                assert(w@ =~= z + p1 + p2 + p3 + p4);
                lemma_joined(z + p1 + p2, p3, p4);
                lemma_joined(z + p1, p2, p3 + p4);
                lemma_joined(z, p1, p2 + (p3 + p4));
            }
        },
        None => {
            assert(w@ =~= z + Seq::empty());
        },
    }
}

/// Read the random source of a binding, if it has one.
pub fn read_rng_source(lex: &mut Lexer) -> (r: Result<Option<String>, ParseError>)
    ensures
        match get_rng_source(old(lex)@) {
            Ok((v, m)) => r matches Ok(x) && final(lex)@ == m && v == (match x {
                Some(name) => Some(name@),
                None => None,
            }),
            Err(e) => r matches Err(x) && x@ == e,
        },
{
    lex.skip();
    if !lex.try_keyword("rng_source") {
        return Ok(None);
    }
    match lex.expect('=') {
        Ok(_) => {},
        Err(e) => {
            return Err(e);
        },
    }
    match lex.read_string() {
        Ok(name) => Ok(Some(name)),
        Err(e) => Err(e),
    }
}

/// The random source of a binding is read back, and the next line is next.
pub proof fn lemma_rng_source(
    l: LexView,
    rng: Option<Seq<char>>,
    lead: Seq<char>,
    t: Seq<char>,
) -> (m: LexView)
    requires
        lead.len() > 0,
        forall|j: int| 0 <= j < lead.len() ==> is_blank(#[trigger] lead[j]),
        t.len() > 0,
        t[0] == 'g' || t[0] == '}',
        l.rest == rng_text(rng) + (lead + t),
    ensures
        get_rng_source(l) == Ok::<(Option<Seq<char>>, LexView), ErrorView>((rng, m)),
        m.skipped().rest == t,
{
    reveal_strlit("rng_source");
    match rng {
        None => {
            assert(l.rest =~= lead + t);
            lemma_past_blanks(l, lead, t);
            let m = l.skipped();
            lemma_at_token(m);
            match get_ident(m) {
                Ok((w, _)) => {
                    lemma_word_len(t);
                    assert(in_word(t[0]) && word_len(t) > 0);
                    assert(w == t.take(word_len(t) as int));
                    assert(w[0] == t[0]);
                },
                Err(_) => {},
            }
            m
        },
        Some(name) => {
            let k = lead + t;
            let k3 = quoted(name) + k;
            let k2 = seq!['='] + k3;
            let k1 = "rng_source"@ + k2;
            assert(rng_text(rng) + k == seq![' '] + k1) by {
                broadcast use lemma_joined;

            }
            assert(k1[0] == 'r');
            lemma_past_blank(l, ' ', k1);
            let s = l.skipped();
            lemma_at_token(s);
            assert(k2[0] == '=');
            lemma_word(s, "rng_source"@, k2);
            let l1 = get_ident(s)->Ok_0.1;
            lemma_at_token(l1);
            lemma_char(l1, '=', k3);
            let l2 = get_char(l1, '=')->Ok_0.1;
            assert(k3[0] == '"');
            lemma_at_token(l2);
            lemma_quoted(l2, name, k);
            let l3 = get_string(l2)->Ok_0.1;
            lemma_past_blanks(l3, lead, t);
            l3
        },
    }
}

} // verus!
