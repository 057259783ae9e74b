//! The sections on regions and gadgets of boolean programs as text, and that
//! reading gives back what was written.
//!
//! ```text
//! regions {
//!   input [0, 4) -> {0, 1}
//!   output [0, 4) -> {0}
//!   storage S0 L0 [0, 8) -> {3}
//! }
//! gadgets {
//!   gadget "pad" on {all=[0], none=[1]} aux=[const [1, 0]]
//! }
//! ```
//!
//! Regions are written by number; their names are not.

use vstd::prelude::*;

use crate::boolar::{
    bir_block_views, BIrBlock, BIrBlockView, BIrBlocks, BIrBlocksView, LaneId,
};
use crate::common::StorageId;
use crate::fmt::{dec, push_dec};
use crate::gadget::{
    aux_views, binding_views, AuxSource, AuxView, BindingView, GadgetBinding,
};
use crate::region::{
    ascending, region_entry_views, RegionEntry, RegionEntryView, RegionNames, RegionSelector,
    RegionTable, RegionTableView, WireAnchor,
};
use crate::text::bir::{
    bir_block_lines, bir_block_text, bir_block_writable, bir_program_sideless, bir_text,
    bir_writable, get_bir_block, get_bir_section, lemma_bir_block, lemma_bir_block_shrinks, lemma_bir_blocks_start,
    lemma_bir_line_words, lemma_bir_section, parse_bir_block, read_bir_section, SavedBIrBlocks,
};
use crate::text::error::{ErrorView, ParseError};
use crate::text::fields::{lemma_blank_ends, put_list, put_name};
use crate::text::lexer::{
    get_char, get_ident, get_items, get_string, get_u32, get_word, gives, gives_view, group_shrinks,
    is_blank, is_word, try_char, LexView, Lexer, Parsed,
};
use crate::text::pieces::{
    at_blank, at_token, quoted, is_name, lemma_at_token, lemma_quoted,
    lemma_char, lemma_dec, lemma_digits, lemma_joined, lemma_list, lemma_past_blank, lemma_word,
    list_text, reads,
};
use crate::text::region_parts::{
    get_ids, get_rng_source, get_selector, get_span, ids_text, lemma_ids, lemma_past_blanks,
    lemma_rng_source, lemma_rng_source_shrinks, lemma_selector, lemma_selector_shrinks, lemma_span,
    lemma_span_shrinks, put_ids, put_range, put_rng_source, put_selector, range_text, read_ids,
    read_rng_source, read_selector, read_span, rng_text, selector_text,
};
use crate::text::traits::WriteText;

verus! {

// ---------------------------------------------------------------------------
// Anchors
// ---------------------------------------------------------------------------

/// An anchor.
pub open spec fn anchor_text(a: WireAnchor) -> Seq<char> {
    match a {
        WireAnchor::Input { start, len } => "input"@ + (seq![' '] + range_text(
            start as nat,
            (start + len) as nat,
        )),
        WireAnchor::Output { start, len } => "output"@ + (seq![' '] + range_text(
            start as nat,
            (start + len) as nat,
        )),
        WireAnchor::Storage { storage, lane, start, len } => "storage"@ + (seq![' ', 'S'] + (dec(
            storage.0 as nat,
        ) + (seq![' ', 'L'] + (dec(lane.0 as nat) + (seq![' '] + range_text(
            start as nat,
            (start + len) as nat,
        )))))),
    }
}

/// A storage lane and a range of its cells.
pub open spec fn get_cells(l: LexView) -> Parsed<WireAnchor> {
    match get_char(l, 'S') {
        Err(e) => Err(e),
        Ok((_, l)) => match get_u32(l) {
            Err(e) => Err(e),
            Ok((storage, l)) => match get_char(l, 'L') {
                Err(e) => Err(e),
                Ok((_, l)) => match get_u32(l) {
                    Err(e) => Err(e),
                    Ok((lane, l)) => match get_span(l, u64::MAX, Seq::empty()) {
                        Err(e) => Err(e),
                        Ok((r, l)) => Ok(
                            (
                                WireAnchor::Storage {
                                    storage: StorageId(storage),
                                    lane: LaneId(lane),
                                    start: r.0,
                                    len: r.1,
                                },
                                l,
                            ),
                        ),
                    },
                },
            },
        },
    }
}

/// An anchor.
pub open spec fn get_anchor(l: LexView) -> Parsed<WireAnchor> {
    match get_ident(l) {
        Err(e) => Err(e),
        Ok((kind, l)) => if kind == "input"@ {
            match get_span(l, u32::MAX as u64, "range out of u32"@) {
                Err(e) => Err(e),
                Ok((r, l)) => Ok(
                    (WireAnchor::Input { start: r.0 as u32, len: r.1 as u32 }, l),
                ),
            }
        } else if kind == "output"@ {
            match get_span(l, u32::MAX as u64, "range out of u32"@) {
                Err(e) => Err(e),
                Ok((r, l)) => Ok(
                    (WireAnchor::Output { start: r.0 as u32, len: r.1 as u32 }, l),
                ),
            }
        } else if kind == "storage"@ {
            get_cells(l)
        } else {
            Err(ErrorView::UnknownDirective(kind))
        },
    }
}

/// An anchor ends further on than it starts.
pub proof fn lemma_anchor_shrinks(l: LexView)
    ensures
        get_anchor(l) matches Ok((_, m)) ==> m.rest.len() < l.rest.len(),
{
    broadcast use group_shrinks;

    assert forall|x: LexView, max: u64, wrong: Seq<char>| #[trigger]
        get_span(x, max, wrong) matches Ok((_, m)) ==> m.rest.len() < x.rest.len() by {
        lemma_span_shrinks(x, max, wrong);
    }
}

fn put_anchor(w: &mut String, a: &WireAnchor)
    requires
        a.fits(),
    ensures
        final(w)@ == old(w)@ + anchor_text(*a),
{
    broadcast use lemma_joined;

    match a {
        WireAnchor::Input { start, len } => {
            w.push_str("input");
            let ghost z = w@;
            w.push(' ');
            assert(w@ =~= z + seq![' ']);
            put_range(w, *start as u64, (*start + *len) as u64);
        },
        WireAnchor::Output { start, len } => {
            w.push_str("output");
            let ghost z = w@;
            w.push(' ');
            assert(w@ =~= z + seq![' ']);
            put_range(w, *start as u64, (*start + *len) as u64);
        },
        WireAnchor::Storage { storage, lane, start, len } => {
            w.push_str("storage");
            let ghost z = w@;
            w.push(' ');
            w.push('S');
            assert(w@ =~= z + seq![' ', 'S']);
            push_dec(w, storage.0 as u128);
            let ghost z1 = w@;
            w.push(' ');
            w.push('L');
            assert(w@ =~= z1 + seq![' ', 'L']);
            push_dec(w, lane.0 as u128);
            let ghost z2 = w@;
            w.push(' ');
            assert(w@ =~= z2 + seq![' ']);
            put_range(w, *start, *start + *len);
        },
    }
}

fn read_cells(lex: &mut Lexer) -> (r: Result<WireAnchor, ParseError>)
    ensures
        gives(r, final(lex)@, get_cells(old(lex)@)),
{
    match lex.expect('S') {
        Ok(_) => {},
        Err(e) => {
            return Err(e);
        },
    }
    let storage: u32 = match lex.read_u32() {
        Ok(x) => x,
        Err(e) => {
            return Err(e);
        },
    };
    match lex.expect('L') {
        Ok(_) => {},
        Err(e) => {
            return Err(e);
        },
    }
    let lane: u32 = match lex.read_u32() {
        Ok(x) => x,
        Err(e) => {
            return Err(e);
        },
    };
    proof {
        reveal_strlit("");
        assert(""@ =~= Seq::empty());
    }
    match read_span(lex, u64::MAX, "") {
        Ok((start, len)) => Ok(
            WireAnchor::Storage { storage: StorageId(storage), lane: LaneId(lane), start, len },
        ),
        Err(e) => Err(e),
    }
}

fn read_anchor(lex: &mut Lexer) -> (r: Result<WireAnchor, ParseError>)
    ensures
        gives(r, final(lex)@, get_anchor(old(lex)@)),
{
    let kind: String = match lex.read_ident() {
        Ok(x) => x,
        Err(e) => {
            return Err(e);
        },
    };
    if is_word(&kind, "input") {
        match read_span(lex, u32::MAX as u64, "range out of u32") {
            Ok((start, len)) => Ok(WireAnchor::Input { start: start as u32, len: len as u32 }),
            Err(e) => Err(e),
        }
    } else if is_word(&kind, "output") {
        match read_span(lex, u32::MAX as u64, "range out of u32") {
            Ok((start, len)) => Ok(WireAnchor::Output { start: start as u32, len: len as u32 }),
            Err(e) => Err(e),
        }
    } else if is_word(&kind, "storage") {
        read_cells(lex)
    } else {
        Err(ParseError::UnknownDirective(kind))
    }
}

/// The words of anchors are words, and no two are the same.
proof fn lemma_anchor_words()
    ensures
        is_name("input"@),
        is_name("output"@),
        is_name("storage"@),
        "input"@[0] == 'i',
        "output"@[0] == 'o',
        "storage"@[0] == 's',
        "input"@ != "output"@,
        "input"@ != "storage"@,
        "output"@ != "storage"@,
{
    reveal_strlit("input");
    reveal_strlit("output");
    reveal_strlit("storage");
}

proof fn lemma_anchor_starts(a: WireAnchor, k: Seq<char>)
    ensures
        at_token(anchor_text(a) + k),
        (anchor_text(a) + k).len() > 0,
        (anchor_text(a) + k)[0] != '}',
{
    lemma_anchor_words();
    let t = anchor_text(a);
    match a {
        WireAnchor::Input { .. } => {
            assert(t[0] == 'i');
        },
        WireAnchor::Output { .. } => {
            assert(t[0] == 'o');
        },
        WireAnchor::Storage { .. } => {
            assert(t[0] == 's');
        },
    }
    assert((t + k)[0] == t[0]);
}

/// An anchor is read back.
#[verifier::rlimit(60)]
proof fn lemma_anchor(l: LexView, a: WireAnchor, k: Seq<char>)
    requires
        a.fits(),
        l.skipped().rest == anchor_text(a) + k,
    ensures
        reads(get_anchor(l), a, k),
{
    lemma_anchor_words();
    match a {
        WireAnchor::Input { start, len } => {
            let r = range_text(start as nat, (start + len) as nat) + k;
            let k1 = seq![' '] + r;
            assert(anchor_text(a) + k == "input"@ + k1) by {
                broadcast use lemma_joined;

            }
            assert(k1[0] == ' ');
            lemma_word(l, "input"@, k1);
            let l1 = get_ident(l)->Ok_0.1;
            assert(r[0] == '[');
            lemma_past_blank(l1, ' ', r);
            lemma_span(l1, start as u64, len as u64, u32::MAX as u64, "range out of u32"@, k);
        },
        WireAnchor::Output { start, len } => {
            let r = range_text(start as nat, (start + len) as nat) + k;
            let k1 = seq![' '] + r;
            assert(anchor_text(a) + k == "output"@ + k1) by {
                broadcast use lemma_joined;

            }
            assert(k1[0] == ' ');
            lemma_word(l, "output"@, k1);
            let l1 = get_ident(l)->Ok_0.1;
            assert(r[0] == '[');
            lemma_past_blank(l1, ' ', r);
            lemma_span(l1, start as u64, len as u64, u32::MAX as u64, "range out of u32"@, k);
        },
        WireAnchor::Storage { storage, lane, start, len } => {
            let r = range_text(start as nat, (start + len) as nat) + k;
            let k4 = seq![' '] + r;
            let k3 = dec(lane.0 as nat) + k4;
            let k2 = seq![' ', 'L'] + k3;
            let k1 = dec(storage.0 as nat) + k2;
            let k0 = seq![' ', 'S'] + k1;
            assert(anchor_text(a) + k == "storage"@ + k0) by {
                broadcast use lemma_joined;

            }
            assert(k0[0] == ' ');
            lemma_word(l, "storage"@, k0);
            let l1 = get_ident(l)->Ok_0.1;
            assert(k0 =~= seq![' '] + (seq!['S'] + k1));
            assert((seq!['S'] + k1)[0] == 'S');
            lemma_past_blank(l1, ' ', seq!['S'] + k1);
            lemma_char(l1, 'S', k1);
            let l2 = get_char(l1, 'S')->Ok_0.1;
            lemma_digits(storage.0 as nat, 10);
            assert(k1[0] == dec(storage.0 as nat)[0]);
            lemma_at_token(l2);
            assert(k2[0] == ' ');
            lemma_dec(l2, storage.0 as nat, u32::MAX as nat, k2);
            let l3 = get_u32(l2)->Ok_0.1;
            assert(k2 =~= seq![' '] + (seq!['L'] + k3));
            assert((seq!['L'] + k3)[0] == 'L');
            lemma_past_blank(l3, ' ', seq!['L'] + k3);
            lemma_char(l3, 'L', k3);
            let l4 = get_char(l3, 'L')->Ok_0.1;
            lemma_digits(lane.0 as nat, 10);
            assert(k3[0] == dec(lane.0 as nat)[0]);
            lemma_at_token(l4);
            assert(k4[0] == ' ');
            lemma_dec(l4, lane.0 as nat, u32::MAX as nat, k4);
            let l5 = get_u32(l4)->Ok_0.1;
            assert(r[0] == '[');
            lemma_past_blank(l5, ' ', r);
            lemma_span(l5, start, len, u64::MAX, Seq::empty(), k);
        },
    }
}

// ---------------------------------------------------------------------------
// Regions
// ---------------------------------------------------------------------------

/// An entry.
pub open spec fn entry_text(e: RegionEntryView) -> Seq<char> {
    anchor_text(e.anchor) + (seq![' ', '-', '>', ' '] + ids_text(e.regions))
}

/// The entries from entry `i` on, a line for each.
pub open spec fn entry_lines(es: Seq<RegionEntryView>, i: int) -> Seq<char>
    decreases es.len() - i,
{
    if i >= es.len() {
        Seq::empty()
    } else {
        seq![' ', ' '] + (entry_text(es[i]) + (seq!['\n'] + entry_lines(es, i + 1)))
    }
}

/// The section on regions.
pub open spec fn regions_text(es: Seq<RegionEntryView>) -> Seq<char> {
    "regions"@ + (seq![' ', '{', '\n'] + (entry_lines(es, 0) + seq!['}', '\n']))
}

/// Whether an entry can be read back: it has regions, and its range ends at a
/// number that fits.
pub open spec fn entry_writable(e: RegionEntryView) -> bool {
    &&& e.anchor.fits()
    &&& e.regions.len() > 0
    &&& ascending(e.regions)
}

/// Whether entries can be read back.
pub open spec fn entry_all_writable(es: Seq<RegionEntryView>) -> bool {
    forall|i: int| 0 <= i < es.len() ==> entry_writable(#[trigger] es[i])
}

/// An entry.
pub open spec fn get_entry(l: LexView) -> Parsed<RegionEntryView> {
    match get_anchor(l) {
        Err(e) => Err(e),
        Ok((anchor, l)) => match get_char(l, '-') {
            Err(e) => Err(e),
            Ok((_, l)) => match get_char(l, '>') {
                Err(e) => Err(e),
                Ok((_, l)) => match get_ids(l) {
                    Err(e) => Err(e),
                    Ok((regions, l)) => Ok((RegionEntryView { anchor, regions }, l)),
                },
            },
        },
    }
}

/// The rest of the entries of a section, up to its closing brace.
pub open spec fn get_entries(l: LexView, so_far: Seq<RegionEntryView>) -> Parsed<Seq<RegionEntryView>>
    decreases l.rest.len(),
{
    let (end, l1) = try_char(l, '}');
    if end {
        Ok((so_far, l1))
    } else {
        match get_entry(l1) {
            Err(e) => Err(e),
            Ok((e, l2)) => {
                proof {
                    broadcast use group_shrinks;

                    lemma_entry_shrinks(l1);
                }
                get_entries(l2, so_far.push(e))
            },
        }
    }
}

/// An entry ends further on than it starts.
pub proof fn lemma_entry_shrinks(l: LexView)
    ensures
        get_entry(l) matches Ok((_, m)) ==> m.rest.len() < l.rest.len(),
{
    broadcast use group_shrinks;

    lemma_anchor_shrinks(l);
}

/// The entries of a section end further on than they start.
pub proof fn lemma_entries_shrinks(l: LexView, so_far: Seq<RegionEntryView>)
    ensures
        get_entries(l, so_far) matches Ok((_, m)) ==> m.rest.len() < l.rest.len(),
    decreases l.rest.len(),
{
    broadcast use group_shrinks;

    let (end, l1) = try_char(l, '}');
    if !end {
        lemma_entry_shrinks(l1);
        match get_entry(l1) {
            Err(_) => {},
            Ok((e, l2)) => {
                lemma_entries_shrinks(l2, so_far.push(e));
            },
        }
    }
}

fn put_entry(w: &mut String, e: &RegionEntry)
    requires
        e.anchor.fits(),
    ensures
        final(w)@ == old(w)@ + entry_text(e@),
{
    broadcast use lemma_joined;

    put_anchor(w, &e.anchor);
    let ghost b = w@;
    w.push_str(" -> ");
    proof {
        reveal_strlit(" -> ");
        assert(" -> "@ =~= seq![' ', '-', '>', ' ']);
    }
    put_ids(w, &e.regions);
}

impl WriteText for RegionTable {
    open spec fn can_write(&self) -> bool {
        forall|i: int| 0 <= i < self@.entries.len() ==> (#[trigger] self@.entries[i]).anchor.fits()
    }

    open spec fn text(&self) -> Seq<char> {
        regions_text(self@.entries)
    }

    fn write_text(&self, w: &mut String) {
        let ghost es = self@.entries;
        let ghost z = w@;
        w.push_str("regions");
        w.push_str(" {\n");
        proof {
            reveal_strlit(" {\n");
            assert(" {\n"@ =~= seq![' ', '{', '\n']);
        }
        let ghost before = w@;
        let mut i: usize = 0;
        while i < self.entries.len()
            invariant
                i <= self.entries@.len(),
                es == region_entry_views(self.entries@),
                forall|j: int| 0 <= j < es.len() ==> (#[trigger] es[j]).anchor.fits(),
                w@ + entry_lines(es, i as int) == before + entry_lines(es, 0),
            decreases self.entries@.len() - i,
        {
            broadcast use lemma_joined;

            assert(es[i as int] == self.entries@[i as int]@);
            let ghost sofar = w@;
            w.push(' ');
            w.push(' ');
            assert(w@ =~= sofar + seq![' ', ' ']);
            put_entry(w, &self.entries[i]);
            let ghost mid = w@;
            w.push('\n');
            assert(w@ =~= mid + seq!['\n']);
            i += 1;
        }
        assert(w@ + entry_lines(es, i as int) =~= w@);
        let ghost last = w@;
        w.push_str("}\n");
        proof {
            reveal_strlit("}\n");
            assert("}\n"@ =~= seq!['}', '\n']);
            let a = "regions"@;
            let b = seq![' ', '{', '\n'];
            let c = entry_lines(es, 0);
            let d = seq!['}', '\n'];
            assert(w@ == z + a + b + c + d);
            lemma_joined(z + a + b, c, d);
            lemma_joined(z + a, b, c + d);
            lemma_joined(z, a, b + (c + d));
        }
    }
}

fn read_entry(lex: &mut Lexer) -> (r: Result<RegionEntry, ParseError>)
    ensures
        gives_view(r, final(lex)@, get_entry(old(lex)@)),
{
    let anchor: WireAnchor = match read_anchor(lex) {
        Ok(x) => x,
        Err(e) => {
            return Err(e);
        },
    };
    match lex.expect('-') {
        Ok(_) => {},
        Err(e) => {
            return Err(e);
        },
    }
    match lex.expect('>') {
        Ok(_) => {},
        Err(e) => {
            return Err(e);
        },
    }
    match read_ids(lex) {
        Ok(regions) => Ok(RegionEntry { anchor, regions }),
        Err(e) => Err(e),
    }
}

/// Read the entries of a section behind its opening brace.
pub(crate) fn parse_region_entries(lex: &mut Lexer) -> (r: Result<RegionTable, ParseError>)
    ensures
        match get_entries(old(lex)@, Seq::empty()) {
            Ok((es, m)) => r matches Ok(t) && t@ == (RegionTableView {
                entries: es,
                names: Seq::empty(),
            }) && final(lex)@ == m,
            Err(e) => r matches Err(x) && x@ == e,
        },
{
    let ghost whole = get_entries(lex@, Seq::empty());
    let mut entries: Vec<RegionEntry> = Vec::new();
    assert(region_entry_views(entries@) =~= Seq::empty());
    loop
        invariant
            whole == get_entries(old(lex)@, Seq::empty()),
            whole == get_entries(lex@, region_entry_views(entries@)),
        decreases lex@.rest.len(),
    {
        broadcast use group_shrinks;

        if lex.take('}') {
            return Ok(RegionTable { entries, names: RegionNames::new() });
        }
        proof {
            lemma_entry_shrinks(lex@);
        }
        match read_entry(lex) {
            Ok(e) => {
                let ghost before = entries@;
                let ghost v = e@;
                entries.push(e);
                assert(region_entry_views(entries@) =~= region_entry_views(before).push(v));
            },
            Err(e) => {
                return Err(e);
            },
        }
    }
}

/// An entry is read back.
proof fn lemma_entry(l: LexView, e: RegionEntryView, k: Seq<char>)
    requires
        entry_writable(e),
        l.skipped().rest == entry_text(e) + k,
    ensures
        reads(get_entry(l), e, k),
{
    let k3 = ids_text(e.regions) + k;
    let k2 = seq!['>'] + (seq![' '] + k3);
    let k1 = seq!['-'] + k2;
    let k0 = seq![' '] + k1;
    let sep = seq![' ', '-', '>', ' '];
    assert(entry_text(e) + k == anchor_text(e.anchor) + (sep + k3)) by {
        broadcast use lemma_joined;

    }
    assert(sep + k3 =~= k0);
    assert(k0[0] == ' ');
    lemma_anchor(l, e.anchor, k0);
    let l1 = get_anchor(l)->Ok_0.1;
    assert(k1[0] == '-');
    lemma_past_blank(l1, ' ', k1);
    lemma_char(l1, '-', k2);
    let l2 = get_char(l1, '-')->Ok_0.1;
    assert(k2[0] == '>');
    lemma_at_token(l2);
    lemma_char(l2, '>', seq![' '] + k3);
    let l3 = get_char(l2, '>')->Ok_0.1;
    assert(k3[0] == '{');
    lemma_past_blank(l3, ' ', k3);
    lemma_ids(l3, e.regions, k);
}

/// The entries of a section from entry `i` on are read back.
#[verifier::rlimit(60)]
proof fn lemma_entries(l: LexView, es: Seq<RegionEntryView>, i: int, lead: Seq<char>, k: Seq<char>)
    requires
        0 <= i <= es.len(),
        entry_all_writable(es),
        forall|j: int| 0 <= j < lead.len() ==> is_blank(#[trigger] lead[j]),
        l.rest == lead + (entry_lines(es, i) + (seq!['}'] + k)),
    ensures
        reads(get_entries(l, es.take(i)), es, k),
    decreases es.len() - i,
{
    let close = seq!['}'] + k;
    if i == es.len() {
        assert(entry_lines(es, i) + close =~= close);
        assert(close[0] == '}');
        lemma_past_blanks(l, lead, close);
        lemma_char(l, '}', k);
        assert(es.take(i) =~= es);
    } else {
        let more = entry_lines(es, i + 1) + close;
        let k1 = seq!['\n'] + more;
        let t = entry_text(es[i]) + k1;
        assert(entry_lines(es, i) + close == seq![' ', ' '] + t) by {
            let x = entry_text(es[i]);
            let y = entry_lines(es, i + 1);
            lemma_joined(seq![' ', ' '], x + (seq!['\n'] + y), close);
            lemma_joined(x, seq!['\n'] + y, close);
            lemma_joined(seq!['\n'], y, close);
        }
        lemma_joined(lead, seq![' ', ' '], t);
        let blanks = lead + seq![' ', ' '];
        assert forall|j: int| 0 <= j < blanks.len() implies is_blank(#[trigger] blanks[j]) by {
            if j < lead.len() {
                assert(blanks[j] == lead[j]);
            }
        }
        assert(at_token(t) && t[0] != '}') by {
            let x = anchor_text(es[i].anchor);
            let y = seq![' ', '-', '>', ' '] + ids_text(es[i].regions);
            lemma_joined(x, y, k1);
            lemma_anchor_starts(es[i].anchor, y + k1);
        }
        lemma_past_blanks(l, blanks, t);
        let l1 = try_char(l, '}').1;
        lemma_at_token(l1);
        lemma_entry(l1, es[i], k1);
        let l2 = get_entry(l1)->Ok_0.1;
        lemma_entries(l2, es, i + 1, seq!['\n'], k);
        assert(es.take(i + 1) =~= es.take(i).push(es[i]));
    }
}

/// The section on regions is read back behind its word.
pub proof fn lemma_regions(l: LexView, es: Seq<RegionEntryView>, k: Seq<char>)
    requires
        entry_all_writable(es),
        l.rest == seq![' ', '{', '\n'] + (entry_lines(es, 0) + (seq!['}'] + k)),
    ensures
        get_char(l, '{') is Ok,
        reads(get_entries(get_char(l, '{')->Ok_0.1, Seq::empty()), es, k),
{
    let t = entry_lines(es, 0) + (seq!['}'] + k);
    let s = seq!['\n'] + t;
    assert(l.rest =~= seq![' '] + (seq!['{'] + s));
    assert((seq!['{'] + s)[0] == '{');
    lemma_past_blank(l, ' ', seq!['{'] + s);
    lemma_char(l, '{', s);
    let m = get_char(l, '{')->Ok_0.1;
    lemma_entries(m, es, 0, seq!['\n'], k);
    assert(es.take(0) =~= Seq::empty());
}

// ---------------------------------------------------------------------------
// Gadgets
// ---------------------------------------------------------------------------

/// The numbers of bits.
pub open spec fn bit_numbers(s: Seq<bool>) -> Seq<u32> {
    s.map_values(
        |b: bool|
            if b {
                1u32
            } else {
                0u32
            },
    )
}

/// A source. A range of inputs is written by its first bit and the one behind
/// its last.
pub open spec fn aux_text(a: AuxView) -> Seq<char> {
    match a {
        AuxView::InputRange { start, len } => "input"@ + (seq![' '] + range_text(
            start as nat,
            (start + len) as nat,
        )),
        AuxView::Const(bits) => "const"@ + (seq![' '] + list_text(
            bit_numbers(bits),
            false,
            true,
            '[',
            ']',
        )),
        AuxView::Rng(name) => "rng"@ + (seq![' '] + quoted(name)),
    }
}

/// The rest of the bits of a source.
pub open spec fn get_bits(l: LexView, so_far: Seq<bool>) -> Parsed<Seq<bool>>
    decreases l.rest.len(),
{
    let (end, l1) = try_char(l, ']');
    if end {
        Ok((so_far, l1))
    } else {
        match get_u32(l1) {
            Err(e) => Err(e),
            Ok((n, l2)) => if n > 1 {
                Err(
                    ErrorView::UnexpectedToken {
                        line: 0,
                        col: 0,
                        got: "bit "@ + dec(n as nat),
                    },
                )
            } else {
                let (more, l3) = try_char(l2, ',');
                if more {
                    proof {
                        broadcast use group_shrinks;

                    }
                    get_bits(l3, so_far.push(n == 1))
                } else {
                    match get_char(l3, ']') {
                        Err(e) => Err(e),
                        Ok((_, l4)) => Ok((so_far.push(n == 1), l4)),
                    }
                }
            },
        }
    }
}

/// A source.
pub open spec fn get_aux(l: LexView) -> Parsed<AuxView> {
    match get_ident(l) {
        Err(e) => Err(e),
        Ok((kind, l)) => if kind == "input"@ {
            match get_span(l, u32::MAX as u64, "range out of u32"@) {
                Err(e) => Err(e),
                Ok((r, l)) => Ok(
                    (AuxView::InputRange { start: r.0 as u32, len: r.1 as u32 }, l),
                ),
            }
        } else if kind == "const"@ {
            match get_char(l, '[') {
                Err(e) => Err(e),
                Ok((_, l)) => match get_bits(l, Seq::empty()) {
                    Err(e) => Err(e),
                    Ok((bits, l)) => Ok((AuxView::Const(bits), l)),
                },
            }
        } else if kind == "rng"@ {
            match get_string(l) {
                Err(e) => Err(e),
                Ok((name, l)) => Ok((AuxView::Rng(name), l)),
            }
        } else {
            Err(ErrorView::UnknownDirective(kind))
        },
    }
}

proof fn lemma_bits_shrinks(l: LexView, so_far: Seq<bool>)
    ensures
        get_bits(l, so_far) matches Ok((_, m)) ==> m.rest.len() < l.rest.len(),
    decreases l.rest.len(),
{
    broadcast use group_shrinks;

    let (end, l1) = try_char(l, ']');
    if !end {
        match get_u32(l1) {
            Err(_) => {},
            Ok((n, l2)) => {
                let (more, l3) = try_char(l2, ',');
                if n <= 1 && more {
                    lemma_bits_shrinks(l3, so_far.push(n == 1));
                }
            },
        }
    }
}

/// A source ends further on than it starts.
pub proof fn lemma_aux_shrinks(l: LexView)
    ensures
        get_aux(l) matches Ok((_, m)) ==> m.rest.len() < l.rest.len(),
{
    broadcast use group_shrinks;

    assert forall|x: LexView, max: u64, wrong: Seq<char>| #[trigger]
        get_span(x, max, wrong) matches Ok((_, m)) ==> m.rest.len() < x.rest.len() by {
        lemma_span_shrinks(x, max, wrong);
    }
    assert forall|x: LexView| #[trigger] get_bits(x, Seq::empty()) matches Ok((_, m))
        ==> m.rest.len() < x.rest.len() by {
        lemma_bits_shrinks(x, Seq::empty());
    }
}

fn put_aux(w: &mut String, a: &AuxSource)
    ensures
        final(w)@ == old(w)@ + aux_text(a@),
{
    broadcast use lemma_joined;

    match a {
        AuxSource::InputRange { start, len } => {
            w.push_str("input");
            let ghost z = w@;
            w.push(' ');
            assert(w@ =~= z + seq![' ']);
            put_range(w, *start as u64, *start as u64 + *len as u64);
        },
        AuxSource::Const(bits) => {
            w.push_str("const");
            let ghost z = w@;
            w.push(' ');
            assert(w@ =~= z + seq![' ']);
            let mut numbers: Vec<u32> = Vec::new();
            let mut i: usize = 0;
            while i < bits.len()
                invariant
                    i <= bits@.len(),
                    numbers@ == bit_numbers(bits@.take(i as int)),
                decreases bits@.len() - i,
            {
                numbers.push(
                    if bits[i] {
                        1
                    } else {
                        0
                    },
                );
                assert(numbers@ =~= bit_numbers(bits@.take(i + 1)));
                i += 1;
            }
            assert(bits@.take(i as int) =~= bits@);
            put_list(w, &numbers, false, true, '[', ']');
        },
        AuxSource::Rng(name) => {
            w.push_str("rng");
            let ghost z = w@;
            w.push(' ');
            assert(w@ =~= z + seq![' ']);
            put_name(w, name);
        },
    }
}

#[verifier::rlimit(60)]
fn read_bits(lex: &mut Lexer) -> (r: Result<Vec<bool>, ParseError>)
    ensures
        gives_view(r, final(lex)@, get_bits(old(lex)@, Seq::empty())),
{
    let ghost whole = get_bits(lex@, Seq::empty());
    let mut out: Vec<bool> = Vec::new();
    loop
        invariant
            whole == get_bits(old(lex)@, Seq::empty()),
            whole == get_bits(lex@, out@),
        decreases lex@.rest.len(),
    {
        broadcast use group_shrinks;

        if lex.take(']') {
            return Ok(out);
        }
        let n: u32 = match lex.read_u32() {
            Ok(n) => n,
            Err(e) => {
                return Err(e);
            },
        };
        if n > 1 {
            let mut got: String = String::new();
            got.push_str("bit ");
            push_dec(&mut got, n as u128);
            assert(got@ =~= "bit "@ + dec(n as nat));
            return Err(ParseError::UnexpectedToken { line: 0, col: 0, got });
        }
        out.push(n == 1);
        if !lex.take(',') {
            match lex.expect(']') {
                Ok(_) => {
                    return Ok(out);
                },
                Err(e) => {
                    return Err(e);
                },
            }
        }
    }
}

fn read_aux(lex: &mut Lexer) -> (r: Result<AuxSource, ParseError>)
    ensures
        gives_view(r, final(lex)@, get_aux(old(lex)@)),
{
    let kind: String = match lex.read_ident() {
        Ok(x) => x,
        Err(e) => {
            return Err(e);
        },
    };
    if is_word(&kind, "input") {
        match read_span(lex, u32::MAX as u64, "range out of u32") {
            Ok((start, len)) => Ok(AuxSource::InputRange { start: start as u32, len: len as u32 }),
            Err(e) => Err(e),
        }
    } else if is_word(&kind, "const") {
        match lex.expect('[') {
            Ok(_) => {},
            Err(e) => {
                return Err(e);
            },
        }
        match read_bits(lex) {
            Ok(bits) => Ok(AuxSource::Const(bits)),
            Err(e) => Err(e),
        }
    } else if is_word(&kind, "rng") {
        match lex.read_string() {
            Ok(name) => Ok(AuxSource::Rng(name)),
            Err(e) => Err(e),
        }
    } else {
        Err(ParseError::UnknownDirective(kind))
    }
}

/// The words of sources are words, and no two are the same.
proof fn lemma_aux_words()
    ensures
        is_name("input"@),
        is_name("const"@),
        is_name("rng"@),
        "input"@[0] == 'i',
        "const"@[0] == 'c',
        "rng"@[0] == 'r',
        "input"@ != "const"@,
        "input"@ != "rng"@,
        "const"@ != "rng"@,
{
    reveal_strlit("input");
    reveal_strlit("const");
    reveal_strlit("rng");
}

proof fn lemma_aux_starts(a: AuxView, k: Seq<char>)
    ensures
        at_token(aux_text(a) + k),
        (aux_text(a) + k).len() > 0,
        (aux_text(a) + k)[0] != ']',
{
    lemma_aux_words();
    let t = aux_text(a);
    match a {
        AuxView::InputRange { .. } => {
            assert(t[0] == 'i');
        },
        AuxView::Const(_) => {
            assert(t[0] == 'c');
        },
        AuxView::Rng(_) => {
            assert(t[0] == 'r');
        },
    }
    assert((t + k)[0] == t[0]);
}

/// Numbers that are bits are read as bits.
#[verifier::spinoff_prover]
#[verifier::rlimit(60)]
proof fn lemma_bits(l: LexView, ns: Seq<u32>, bits: Seq<bool>)
    requires
        bit_numbers(bits) == ns,
        get_items(l, false, ']', ns) is Ok,
        forall|j: int|
            0 <= j < get_items(l, false, ']', ns)->Ok_0.0.len() ==> #[trigger] get_items(
                l,
                false,
                ']',
                ns,
            )->Ok_0.0[j] <= 1,
    ensures
        get_bits(l, bits) matches Ok((b, m)) && bit_numbers(b) == get_items(
            l,
            false,
            ']',
            ns,
        )->Ok_0.0 && m == get_items(l, false, ']', ns)->Ok_0.1,
    decreases l.rest.len(),
{
    let (end, l1) = try_char(l, ']');
    if !end {
        let all = get_items(l, false, ']', ns)->Ok_0.0;
        let n = get_u32(l1)->Ok_0.0;
        let l2 = get_u32(l1)->Ok_0.1;
        let ns1 = ns.push(n);
        let (more, l3) = try_char(l2, ',');
        assert(ns.len() < all.len() && all[ns.len() as int] == n) by {
            lemma_prefix_items(l3, ns1);
            assert(ns1.is_prefix_of(all));
            assert(ns1[ns.len() as int] == n);
        }
        assert(n <= 1);
        assert(bit_numbers(bits.push(n == 1)) =~= ns1);
        if more {
            assert(get_items(l, false, ']', ns) == get_items(l3, false, ']', ns1));
            assert(l3.rest.len() < l.rest.len()) by {
                broadcast use group_shrinks;

            }
            lemma_bits(l3, ns1, bits.push(n == 1));
        }
    }
}

/// What was read of a list stays at its start.
proof fn lemma_prefix_items(l: LexView, ns: Seq<u32>)
    ensures
        get_items(l, false, ']', ns) matches Ok((all, _)) ==> ns.is_prefix_of(all),
    decreases l.rest.len(),
{
    broadcast use group_shrinks;

    let (end, l1) = try_char(l, ']');
    if end {
        assert(ns.take(ns.len() as int) =~= ns);
    } else {
        match get_u32(l1) {
            Err(_) => {},
            Ok((n, l2)) => {
                let (more, l3) = try_char(l2, ',');
                if more {
                    lemma_prefix_items(l3, ns.push(n));
                    match get_items(l3, false, ']', ns.push(n)) {
                        Err(_) => {},
                        Ok((all, _)) => {
                            assert(ns =~= ns.push(n).take(ns.len() as int));
                            assert(ns =~= all.take(ns.len() as int));
                        },
                    }
                } else {
                    assert(ns =~= ns.push(n).take(ns.len() as int));
                }
            },
        }
    }
}

/// A source is read back.
#[verifier::rlimit(60)]
proof fn lemma_aux(l: LexView, a: AuxView, k: Seq<char>)
    requires
        l.skipped().rest == aux_text(a) + k,
    ensures
        reads(get_aux(l), a, k),
{
    lemma_aux_words();
    match a {
        AuxView::InputRange { start, len } => {
            let r = range_text(start as nat, (start + len) as nat) + k;
            let k1 = seq![' '] + r;
            assert(aux_text(a) + k == "input"@ + k1) by {
                broadcast use lemma_joined;

            }
            assert(k1[0] == ' ');
            lemma_word(l, "input"@, k1);
            let l1 = get_ident(l)->Ok_0.1;
            assert(r[0] == '[');
            lemma_past_blank(l1, ' ', r);
            lemma_span(l1, start as u64, len as u64, u32::MAX as u64, "range out of u32"@, k);
        },
        AuxView::Const(bits) => {
            let ns = bit_numbers(bits);
            let r = list_text(ns, false, true, '[', ']') + k;
            let k1 = seq![' '] + r;
            assert(aux_text(a) + k == "const"@ + k1) by {
                broadcast use lemma_joined;

            }
            assert(k1[0] == ' ');
            lemma_word(l, "const"@, k1);
            let l1 = get_ident(l)->Ok_0.1;
            assert(r[0] == '[');
            lemma_past_blank(l1, ' ', r);
            lemma_list(l1, ns, false, true, '[', ']', k);
            let l2 = get_char(l1, '[')->Ok_0.1;
            let none: Seq<bool> = Seq::empty();
            assert(bit_numbers(none) =~= Seq::empty());
            lemma_bits(l2, Seq::empty(), none);
            let got = get_bits(l2, none)->Ok_0.0;
            assert(bit_numbers(got) == ns);
            assert(got =~= bits) by {
                assert(bit_numbers(got).len() == bit_numbers(bits).len());
                assert forall|j: int| 0 <= j < got.len() implies got[j] == bits[j] by {
                    assert(bit_numbers(got)[j] == bit_numbers(bits)[j]);
                }
            }
        },
        AuxView::Rng(name) => {
            let r = quoted(name) + k;
            let k1 = seq![' '] + r;
            assert(aux_text(a) + k == "rng"@ + k1) by {
                broadcast use lemma_joined;

            }
            assert(k1[0] == ' ');
            lemma_word(l, "rng"@, k1);
            let l1 = get_ident(l)->Ok_0.1;
            assert(r[0] == '"');
            lemma_past_blank(l1, ' ', r);
            lemma_quoted(l1, name, k);
        },
    }
}

/// The sources from source `i` on, each but the first behind a comma.
pub open spec fn aux_items(s: Seq<AuxView>, i: int) -> Seq<char>
    decreases s.len() - i,
{
    if i >= s.len() {
        Seq::empty()
    } else {
        (if i == 0 {
            Seq::empty()
        } else {
            seq![',', ' ']
        }) + (aux_text(s[i]) + aux_items(s, i + 1))
    }
}

/// A binding.
pub open spec fn binding_text(b: BindingView) -> Seq<char> {
    "gadget"@ + (seq![' '] + (quoted(b.gadget) + (seq![' '] + ("on"@ + (seq![' '] + (
    selector_text(b.selector) + (seq![' '] + ("aux"@ + (seq!['='] + (seq!['['] + (aux_items(
        b.aux_sources,
        0,
    ) + (seq![']'] + rng_text(b.rng_source)))))))))))))
}

/// The bindings from binding `i` on, a line for each.
pub open spec fn binding_lines(bs: Seq<BindingView>, i: int) -> Seq<char>
    decreases bs.len() - i,
{
    if i >= bs.len() {
        Seq::empty()
    } else {
        seq![' ', ' '] + (binding_text(bs[i]) + (seq!['\n'] + binding_lines(bs, i + 1)))
    }
}

/// The section on gadgets.
pub open spec fn gadgets_text(bs: Seq<BindingView>) -> Seq<char> {
    "gadgets"@ + (seq![' ', '{', '\n'] + (binding_lines(bs, 0) + seq!['}', '\n']))
}

/// Whether a binding can be read back: its selector lists regions in order.
pub open spec fn binding_writable(b: BindingView) -> bool {
    &&& ascending(b.selector.all_of)
    &&& ascending(b.selector.none_of)
}

/// Whether bindings can be read back.
pub open spec fn binding_all_writable(bs: Seq<BindingView>) -> bool {
    forall|i: int| 0 <= i < bs.len() ==> binding_writable(#[trigger] bs[i])
}

/// The rest of the sources of a binding.
pub open spec fn get_aux_items(l: LexView, so_far: Seq<AuxView>) -> Parsed<Seq<AuxView>>
    decreases l.rest.len(),
{
    let (end, l1) = try_char(l, ']');
    if end {
        Ok((so_far, l1))
    } else {
        match get_aux(l1) {
            Err(e) => Err(e),
            Ok((a, l2)) => {
                let (more, l3) = try_char(l2, ',');
                if more {
                    proof {
                        broadcast use group_shrinks;

                        lemma_aux_shrinks(l1);
                    }
                    get_aux_items(l3, so_far.push(a))
                } else {
                    match get_char(l3, ']') {
                        Err(e) => Err(e),
                        Ok((_, l4)) => Ok((so_far.push(a), l4)),
                    }
                }
            },
        }
    }
}

/// The sources of a binding.
pub open spec fn get_aux_list(l: LexView) -> Parsed<Seq<AuxView>> {
    match get_word(l, "aux"@) {
        Err(e) => Err(e),
        Ok((_, l)) => match get_char(l, '=') {
            Err(e) => Err(e),
            Ok((_, l)) => match get_char(l, '[') {
                Err(e) => Err(e),
                Ok((_, l)) => get_aux_items(l, Seq::empty()),
            },
        },
    }
}

/// A binding.
pub open spec fn get_binding(l: LexView) -> Parsed<BindingView> {
    match get_word(l, "gadget"@) {
        Err(e) => Err(e),
        Ok((_, l)) => match get_string(l) {
            Err(e) => Err(e),
            Ok((gadget, l)) => match get_word(l, "on"@) {
                Err(e) => Err(e),
                Ok((_, l)) => match get_selector(l) {
                    Err(e) => Err(e),
                    Ok((selector, l)) => match get_aux_list(l) {
                        Err(e) => Err(e),
                        Ok((aux_sources, l)) => match get_rng_source(l) {
                            Err(e) => Err(e),
                            Ok((rng_source, l)) => Ok(
                                (BindingView { gadget, selector, aux_sources, rng_source }, l),
                            ),
                        },
                    },
                },
            },
        },
    }
}

/// The rest of the bindings of a section, up to its closing brace.
pub open spec fn get_bindings(l: LexView, so_far: Seq<BindingView>) -> Parsed<Seq<BindingView>>
    decreases l.rest.len(),
{
    let (end, l1) = try_char(l, '}');
    if end {
        Ok((so_far, l1))
    } else {
        match get_binding(l1) {
            Err(e) => Err(e),
            Ok((b, l2)) => {
                proof {
                    broadcast use group_shrinks;

                    lemma_binding_shrinks(l1);
                }
                get_bindings(l2, so_far.push(b))
            },
        }
    }
}

proof fn lemma_aux_items_shrinks(l: LexView, so_far: Seq<AuxView>)
    ensures
        get_aux_items(l, so_far) matches Ok((_, m)) ==> m.rest.len() < l.rest.len(),
    decreases l.rest.len(),
{
    broadcast use group_shrinks;

    let (end, l1) = try_char(l, ']');
    if !end {
        lemma_aux_shrinks(l1);
        match get_aux(l1) {
            Err(_) => {},
            Ok((a, l2)) => {
                let (more, l3) = try_char(l2, ',');
                if more {
                    lemma_aux_items_shrinks(l3, so_far.push(a));
                }
            },
        }
    }
}

proof fn lemma_aux_list_shrinks(l: LexView)
    ensures
        get_aux_list(l) matches Ok((_, m)) ==> m.rest.len() < l.rest.len(),
{
    broadcast use group_shrinks;

    assert forall|x: LexView| #[trigger] get_aux_items(x, Seq::empty()) matches Ok((_, m))
        ==> m.rest.len() < x.rest.len() by {
        lemma_aux_items_shrinks(x, Seq::empty());
    }
}

/// A binding ends further on than it starts.
pub proof fn lemma_binding_shrinks(l: LexView)
    ensures
        get_binding(l) matches Ok((_, m)) ==> m.rest.len() < l.rest.len(),
{
    broadcast use group_shrinks;

    assert forall|x: LexView| #[trigger] get_aux_list(x) matches Ok((_, m)) ==> m.rest.len()
        < x.rest.len() by {
        lemma_aux_list_shrinks(x);
    }
    assert forall|x: LexView| #[trigger] get_rng_source(x) matches Ok((_, m)) ==> m.rest.len()
        <= x.rest.len() by {
        lemma_rng_source_shrinks(x);
    }
    assert forall|x: LexView| #[trigger] get_selector(x) matches Ok((_, m)) ==> m.rest.len()
        < x.rest.len() by {
        lemma_selector_shrinks(x);
    }
}

/// The bindings of a section end further on than they start.
pub proof fn lemma_bindings_shrinks(l: LexView, so_far: Seq<BindingView>)
    ensures
        get_bindings(l, so_far) matches Ok((_, m)) ==> m.rest.len() < l.rest.len(),
    decreases l.rest.len(),
{
    broadcast use group_shrinks;

    let (end, l1) = try_char(l, '}');
    if !end {
        lemma_binding_shrinks(l1);
        match get_binding(l1) {
            Err(_) => {},
            Ok((b, l2)) => {
                lemma_bindings_shrinks(l2, so_far.push(b));
            },
        }
    }
}

fn put_aux_items(w: &mut String, s: &Vec<AuxSource>)
    ensures
        final(w)@ == old(w)@ + aux_items(aux_views(s@), 0),
{
    let ghost v = aux_views(s@);
    let ghost before = w@;
    let mut i: usize = 0;
    while i < s.len()
        invariant
            i <= s@.len(),
            v == aux_views(s@),
            w@ + aux_items(v, i as int) == before + aux_items(v, 0),
        decreases s@.len() - i,
    {
        assert(v[i as int] == s@[i as int]@);
        let ghost sofar = w@;
        let ghost more = aux_items(v, i + 1);
        if i > 0 {
            w.push(',');
            w.push(' ');
        }
        let ghost sep: Seq<char> = if i == 0 {
            Seq::empty()
        } else {
            seq![',', ' ']
        };
        assert(w@ =~= sofar + sep);
        put_aux(w, &s[i]);
        proof {
            let t = aux_text(v[i as int]);
            lemma_joined(sofar + sep, t, more);
            lemma_joined(sofar, sep, t + more);
        }
        i += 1;
    }
    assert(w@ + aux_items(v, i as int) =~= w@);
}

fn put_binding(w: &mut String, b: &GadgetBinding)
    ensures
        final(w)@ == old(w)@ + binding_text(b@),
{
    let ghost z = w@;
    w.push_str("gadget");
    w.push(' ');
    put_name(w, &b.gadget);
    w.push(' ');
    w.push_str("on");
    w.push(' ');
    put_selector(w, &b.selector);
    w.push(' ');
    w.push_str("aux");
    w.push('=');
    w.push('[');
    put_aux_items(w, &b.aux_sources);
    w.push(']');
    put_rng_source(w, &b.rng_source);
    proof {
        let p1 = "gadget"@;
        let p2 = seq![' '];
        let p3 = quoted(b.gadget@);
        let p4 = seq![' '];
        let p5 = "on"@;
        let p6 = seq![' '];
        let p7 = selector_text(b.selector@);
        let p8 = seq![' '];
        let p9 = "aux"@;
        let p10 = seq!['='];
        let p11 = seq!['['];
        let p12 = aux_items(b@.aux_sources, 0);
        let p13 = seq![']'] + rng_text(b@.rng_source);
        assert(w@ =~= z + p1 + p2 + p3 + p4 + p5 + p6 + p7 + p8 + p9 + p10 + p11 + p12 + p13);
        lemma_joined(z + p1 + p2 + p3 + p4 + p5 + p6 + p7 + p8 + p9 + p10 + p11, p12, p13);
        lemma_joined(z + p1 + p2 + p3 + p4 + p5 + p6 + p7 + p8 + p9 + p10, p11, p12 + p13);
        lemma_joined(z + p1 + p2 + p3 + p4 + p5 + p6 + p7 + p8 + p9, p10, p11 + (p12 + p13));
        lemma_joined(z + p1 + p2 + p3 + p4 + p5 + p6 + p7 + p8, p9, p10 + (p11 + (p12 + p13)));
        lemma_joined(z + p1 + p2 + p3 + p4 + p5 + p6 + p7, p8, p9 + (p10 + (p11 + (p12 + p13))));
        lemma_joined(z + p1 + p2 + p3 + p4 + p5 + p6, p7, p8 + (p9 + (p10 + (p11 + (p12 + p13)))));
        lemma_joined(z + p1 + p2 + p3 + p4 + p5, p6, p7 + (p8 + (p9 + (p10 + (p11 + (p12 + p13))))));
        lemma_joined(z + p1 + p2 + p3 + p4, p5, p6 + (p7 + (p8 + (p9 + (p10 + (p11 + (p12 + p13)))))));
        lemma_joined(z + p1 + p2 + p3, p4, p5 + (p6 + (p7 + (p8 + (p9 + (p10 + (p11 + (p12 + p13))))))));
        lemma_joined(z + p1 + p2, p3, p4 + (p5 + (p6 + (p7 + (p8 + (p9 + (p10 + (p11 + (p12 + p13)))))))));
        lemma_joined(z + p1, p2, p3 + (p4 + (p5 + (p6 + (p7 + (p8 + (p9 + (p10 + (p11 + (p12 + p13))))))))));
        lemma_joined(z, p1, p2 + (p3 + (p4 + (p5 + (p6 + (p7 + (p8 + (p9 + (p10 + (p11 + (p12 + p13)))))))))));
    }
}

/// Append the section on gadgets.
pub fn write_gadget_bindings(bindings: &[GadgetBinding], w: &mut String)
    ensures
        final(w)@ == old(w)@ + gadgets_text(binding_views(bindings@)),
{
    let ghost bs = binding_views(bindings@);
    let ghost z = w@;
    w.push_str("gadgets");
    w.push_str(" {\n");
    proof {
        reveal_strlit(" {\n");
        assert(" {\n"@ =~= seq![' ', '{', '\n']);
    }
    let ghost before = w@;
    let mut i: usize = 0;
    while i < bindings.len()
        invariant
            i <= bindings@.len(),
            bs == binding_views(bindings@),
            w@ + binding_lines(bs, i as int) == before + binding_lines(bs, 0),
        decreases bindings@.len() - i,
    {
        assert(bs[i as int] == bindings@[i as int]@);
        let ghost sofar = w@;
        w.push(' ');
        w.push(' ');
        assert(w@ =~= sofar + seq![' ', ' ']);
        put_binding(w, &bindings[i]);
        let ghost mid = w@;
        w.push('\n');
        assert(w@ =~= mid + seq!['\n']);
        proof {
            let t = binding_text(bs[i as int]);
            let more = binding_lines(bs, i + 1);
            lemma_joined(sofar + seq![' ', ' '] + t, seq!['\n'], more);
            lemma_joined(sofar + seq![' ', ' '], t, seq!['\n'] + more);
            lemma_joined(sofar, seq![' ', ' '], t + (seq!['\n'] + more));
        }
        i += 1;
    }
    assert(w@ + binding_lines(bs, i as int) =~= w@);
    w.push_str("}\n");
    proof {
        reveal_strlit("}\n");
        assert("}\n"@ =~= seq!['}', '\n']);
        let a = "gadgets"@;
        let b = seq![' ', '{', '\n'];
        let c = binding_lines(bs, 0);
        let d = seq!['}', '\n'];
        assert(w@ == z + a + b + c + d);
        lemma_joined(z + a + b, c, d);
        lemma_joined(z + a, b, c + d);
        lemma_joined(z, a, b + (c + d));
    }
}

fn read_aux_list(lex: &mut Lexer) -> (r: Result<Vec<AuxSource>, ParseError>)
    ensures
        match get_aux_list(old(lex)@) {
            Ok((s, m)) => r matches Ok(x) && aux_views(x@) == s && final(lex)@ == m,
            Err(e) => r matches Err(x) && x@ == e,
        },
{
    match lex.read_ident_kw("aux") {
        Ok(_) => {},
        Err(e) => {
            return Err(e);
        },
    }
    match lex.expect('=') {
        Ok(_) => {},
        Err(e) => {
            return Err(e);
        },
    }
    match lex.expect('[') {
        Ok(_) => {},
        Err(e) => {
            return Err(e);
        },
    }
    let ghost whole = get_aux_items(lex@, Seq::empty());
    let mut out: Vec<AuxSource> = Vec::new();
    assert(aux_views(out@) =~= Seq::empty());
    loop
        invariant
            whole == get_aux_list(old(lex)@),
            whole == get_aux_items(lex@, aux_views(out@)),
        decreases lex@.rest.len(),
    {
        broadcast use group_shrinks;

        if lex.take(']') {
            return Ok(out);
        }
        proof {
            lemma_aux_shrinks(lex@);
        }
        match read_aux(lex) {
            Ok(a) => {
                let ghost before = out@;
                let ghost v = a@;
                out.push(a);
                assert(aux_views(out@) =~= aux_views(before).push(v));
            },
            Err(e) => {
                return Err(e);
            },
        }
        if !lex.take(',') {
            match lex.expect(']') {
                Ok(_) => {
                    return Ok(out);
                },
                Err(e) => {
                    return Err(e);
                },
            }
        }
    }
}

fn read_binding(lex: &mut Lexer) -> (r: Result<GadgetBinding, ParseError>)
    ensures
        gives_view(r, final(lex)@, get_binding(old(lex)@)),
{
    match lex.read_ident_kw("gadget") {
        Ok(_) => {},
        Err(e) => {
            return Err(e);
        },
    }
    let gadget: String = match lex.read_string() {
        Ok(x) => x,
        Err(e) => {
            return Err(e);
        },
    };
    match lex.read_ident_kw("on") {
        Ok(_) => {},
        Err(e) => {
            return Err(e);
        },
    }
    let selector: RegionSelector = match read_selector(lex) {
        Ok(x) => x,
        Err(e) => {
            return Err(e);
        },
    };
    let aux_sources: Vec<AuxSource> = match read_aux_list(lex) {
        Ok(x) => x,
        Err(e) => {
            return Err(e);
        },
    };
    match read_rng_source(lex) {
        Ok(rng_source) => Ok(GadgetBinding { gadget, selector, aux_sources, rng_source }),
        Err(e) => Err(e),
    }
}

/// Read the bindings of a section behind its opening brace.
pub(crate) fn parse_gadget_section(lex: &mut Lexer) -> (r: Result<Vec<GadgetBinding>, ParseError>)
    ensures
        match get_bindings(old(lex)@, Seq::empty()) {
            Ok((bs, m)) => r matches Ok(x) && binding_views(x@) == bs && final(lex)@ == m,
            Err(e) => r matches Err(x) && x@ == e,
        },
{
    let ghost whole = get_bindings(lex@, Seq::empty());
    let mut out: Vec<GadgetBinding> = Vec::new();
    assert(binding_views(out@) =~= Seq::empty());
    loop
        invariant
            whole == get_bindings(old(lex)@, Seq::empty()),
            whole == get_bindings(lex@, binding_views(out@)),
        decreases lex@.rest.len(),
    {
        broadcast use group_shrinks;

        if lex.take('}') {
            return Ok(out);
        }
        proof {
            lemma_binding_shrinks(lex@);
        }
        match read_binding(lex) {
            Ok(b) => {
                let ghost before = out@;
                let ghost v = b@;
                out.push(b);
                assert(binding_views(out@) =~= binding_views(before).push(v));
            },
            Err(e) => {
                return Err(e);
            },
        }
    }
}

/// The words of a binding are words.
proof fn lemma_binding_words()
    ensures
        is_name("gadget"@),
        is_name("on"@),
        is_name("aux"@),
        "gadget"@[0] == 'g',
        "on"@[0] == 'o',
        "aux"@[0] == 'a',
{
    reveal_strlit("gadget");
    reveal_strlit("on");
    reveal_strlit("aux");
}

/// The sources of a binding from source `i` on are read back.
#[verifier::rlimit(60)]
proof fn lemma_aux_items(l: LexView, s: Seq<AuxView>, i: int, k: Seq<char>)
    requires
        0 <= i < s.len(),
        l.skipped().rest == aux_text(s[i]) + (aux_items(s, i + 1) + (seq![']'] + k)),
    ensures
        reads(get_aux_items(l, s.take(i)), s, k),
    decreases s.len() - i,
{
    let close = seq![']'] + k;
    let tail = aux_items(s, i + 1) + close;
    let (end, l1) = try_char(l, ']');
    lemma_aux_starts(s[i], tail);
    assert(!end);
    lemma_at_token(l1);
    if i + 1 < s.len() {
        let next = aux_text(s[i + 1]) + (aux_items(s, i + 2) + close);
        assert(tail == seq![',', ' '] + next) by {
            let x = aux_text(s[i + 1]);
            let y = aux_items(s, i + 2);
            lemma_joined(seq![',', ' '], x + y, close);
            lemma_joined(x, y, close);
        }
        let sp = seq![' '] + next;
        assert(tail =~= seq![','] + sp);
        assert(tail[0] == ',');
        lemma_aux_starts(s[i + 1], aux_items(s, i + 2) + close);
        lemma_aux(l1, s[i], tail);
        let l2 = get_aux(l1)->Ok_0.1;
        lemma_at_token(l2);
        lemma_char(l2, ',', sp);
        let l3 = try_char(l2, ',').1;
        lemma_past_blank(l3, ' ', next);
        lemma_aux_items(l3, s, i + 1, k);
        assert(s.take(i + 1) =~= s.take(i).push(s[i]));
    } else {
        assert(tail =~= close);
        assert(tail[0] == ']');
        lemma_aux(l1, s[i], tail);
        let l2 = get_aux(l1)->Ok_0.1;
        lemma_at_token(l2);
        let l3 = try_char(l2, ',').1;
        assert(l3 == l2);
        lemma_char(l3, ']', k);
        assert(s.take(i).push(s[i]) =~= s);
    }
}

/// The sources of a binding are read back.
proof fn lemma_aux_list(l: LexView, s: Seq<AuxView>, k: Seq<char>)
    requires
        l.skipped().rest == "aux"@ + (seq!['='] + (seq!['['] + (aux_items(s, 0) + (seq![']']
            + k)))),
    ensures
        reads(get_aux_list(l), s, k),
{
    lemma_binding_words();
    let close = seq![']'] + k;
    let k3 = aux_items(s, 0) + close;
    let k2 = seq!['['] + k3;
    let k1 = seq!['='] + k2;
    assert(k1[0] == '=');
    lemma_word(l, "aux"@, k1);
    let l1 = get_ident(l)->Ok_0.1;
    lemma_at_token(l1);
    lemma_char(l1, '=', k2);
    let l2 = get_char(l1, '=')->Ok_0.1;
    assert(k2[0] == '[');
    lemma_at_token(l2);
    lemma_char(l2, '[', k3);
    let l3 = get_char(l2, '[')->Ok_0.1;
    if s.len() == 0 {
        assert(k3 =~= close);
        assert(close[0] == ']');
        lemma_at_token(l3);
        lemma_char(l3, ']', k);
        assert(s =~= Seq::empty());
    } else {
        let first = aux_text(s[0]) + (aux_items(s, 1) + close);
        assert(k3 == first) by {
            assert(Seq::<char>::empty() + (aux_text(s[0]) + aux_items(s, 1)) =~= aux_text(s[0])
                + aux_items(s, 1));
            lemma_joined(aux_text(s[0]), aux_items(s, 1), close);
        }
        lemma_aux_starts(s[0], aux_items(s, 1) + close);
        lemma_at_token(l3);
        lemma_aux_items(l3, s, 0, k);
        assert(s.take(0) =~= Seq::empty());
    }
}

/// A binding is read back, and the next line is next.
#[verifier::rlimit(60)]
proof fn lemma_binding(l: LexView, b: BindingView, lead: Seq<char>, t: Seq<char>) -> (m: LexView)
    requires
        binding_writable(b),
        lead.len() > 0,
        forall|j: int| 0 <= j < lead.len() ==> is_blank(#[trigger] lead[j]),
        t.len() > 0,
        t[0] == 'g' || t[0] == '}',
        l.skipped().rest == binding_text(b) + (lead + t),
    ensures
        get_binding(l) == Ok::<(BindingView, LexView), ErrorView>((b, m)),
        m.skipped().rest == t,
{
    lemma_binding_words();
    let k = lead + t;
    let k7 = rng_text(b.rng_source) + k;
    let k6 = "aux"@ + (seq!['='] + (seq!['['] + (aux_items(b.aux_sources, 0) + (seq![']'] + k7))));
    let k5 = selector_text(b.selector) + (seq![' '] + k6);
    let k4 = seq![' '] + k5;
    let k3 = "on"@ + k4;
    let k2 = quoted(b.gadget) + (seq![' '] + k3);
    let k1 = seq![' '] + k2;
    assert(binding_text(b) + k == "gadget"@ + k1) by {
        broadcast use lemma_joined;

    }
    assert(k1[0] == ' ');
    lemma_word(l, "gadget"@, k1);
    let l1 = get_ident(l)->Ok_0.1;
    assert(k2[0] == '"');
    lemma_past_blank(l1, ' ', k2);
    lemma_quoted(l1, b.gadget, seq![' '] + k3);
    let l2 = get_string(l1)->Ok_0.1;
    assert(k3[0] == 'o');
    lemma_past_blank(l2, ' ', k3);
    assert(k4[0] == ' ');
    lemma_word(l2, "on"@, k4);
    let l3 = get_ident(l2)->Ok_0.1;
    assert(k5[0] == '{');
    lemma_past_blank(l3, ' ', k5);
    lemma_selector(l3, b.selector, seq![' '] + k6);
    let l4 = get_selector(l3)->Ok_0.1;
    assert(k6[0] == 'a');
    lemma_past_blank(l4, ' ', k6);
    lemma_aux_list(l4, b.aux_sources, k7);
    let l5 = get_aux_list(l4)->Ok_0.1;
    lemma_rng_source(l5, b.rng_source, lead, t)
}

/// What is left of a section at the start of line `i`.
spec fn binding_rest(bs: Seq<BindingView>, i: int, k: Seq<char>) -> Seq<char> {
    if i >= bs.len() {
        seq!['}'] + k
    } else {
        binding_text(bs[i]) + (seq!['\n'] + (binding_lines(bs, i + 1) + (seq!['}'] + k)))
    }
}

/// The next line of a section starts behind its blanks.
proof fn lemma_binding_lead(bs: Seq<BindingView>, i: int, k: Seq<char>) -> (lead: Seq<char>)
    requires
        0 <= i,
    ensures
        lead.len() > 0,
        forall|j: int| 0 <= j < lead.len() ==> is_blank(#[trigger] lead[j]),
        seq!['\n'] + (binding_lines(bs, i) + (seq!['}'] + k)) == lead + binding_rest(bs, i, k),
        binding_rest(bs, i, k).len() > 0,
        binding_rest(bs, i, k)[0] == 'g' || binding_rest(bs, i, k)[0] == '}',
{
    let close = seq!['}'] + k;
    if i >= bs.len() {
        assert(binding_lines(bs, i) + close =~= close);
        assert(close[0] == '}');
        seq!['\n']
    } else {
        lemma_binding_words();
        let t = binding_rest(bs, i, k);
        assert(binding_lines(bs, i) + close == seq![' ', ' '] + t) by {
            let x = binding_text(bs[i]);
            let y = binding_lines(bs, i + 1);
            lemma_joined(seq![' ', ' '], x + (seq!['\n'] + y), close);
            lemma_joined(x, seq!['\n'] + y, close);
            lemma_joined(seq!['\n'], y, close);
        }
        assert(seq!['\n'] + (seq![' ', ' '] + t) =~= seq!['\n', ' ', ' '] + t);
        assert(binding_text(bs[i])[0] == "gadget"@[0]);
        assert(t[0] == 'g');
        seq!['\n', ' ', ' ']
    }
}

/// The bindings of a section from binding `i` on are read back.
#[verifier::rlimit(60)]
proof fn lemma_bindings(l: LexView, bs: Seq<BindingView>, i: int, k: Seq<char>)
    requires
        0 <= i <= bs.len(),
        binding_all_writable(bs),
        l.skipped().rest == binding_rest(bs, i, k),
    ensures
        reads(get_bindings(l, bs.take(i)), bs, k),
    decreases bs.len() - i,
{
    if i == bs.len() {
        lemma_char(l, '}', k);
        assert(bs.take(i) =~= bs);
    } else {
        lemma_binding_lead(bs, i, k);
        let l1 = try_char(l, '}').1;
        lemma_binding_words();
        assert(binding_text(bs[i])[0] == "gadget"@[0]);
        assert(l1.rest[0] == 'g');
        lemma_at_token(l1);
        let lead = lemma_binding_lead(bs, i + 1, k);
        let l2 = lemma_binding(l1, bs[i], lead, binding_rest(bs, i + 1, k));
        lemma_bindings(l2, bs, i + 1, k);
        assert(bs.take(i + 1) =~= bs.take(i).push(bs[i]));
    }
}

/// The section on gadgets is read back behind its word.
pub proof fn lemma_gadgets(l: LexView, bs: Seq<BindingView>, k: Seq<char>)
    requires
        binding_all_writable(bs),
        l.rest == seq![' ', '{', '\n'] + (binding_lines(bs, 0) + (seq!['}'] + k)),
    ensures
        get_char(l, '{') is Ok,
        reads(get_bindings(get_char(l, '{')->Ok_0.1, Seq::empty()), bs, k),
{
    let t = binding_lines(bs, 0) + (seq!['}'] + k);
    let s = seq!['\n'] + t;
    assert(l.rest =~= seq![' '] + (seq!['{'] + s));
    assert((seq!['{'] + s)[0] == '{');
    lemma_past_blank(l, ' ', seq!['{'] + s);
    lemma_char(l, '{', s);
    let m = get_char(l, '{')->Ok_0.1;
    let lead = lemma_binding_lead(bs, 0, k);
    lemma_past_blanks(m, lead, binding_rest(bs, 0, k));
    lemma_bindings(m, bs, 0, k);
    assert(bs.take(0) =~= Seq::empty());
}

// ---------------------------------------------------------------------------
// Documents
// ---------------------------------------------------------------------------

/// A boolean program with its regions and gadgets.
#[derive(PartialEq, Eq, Debug)]
pub struct SavedBoolarWithRegions {
    pub circuit: SavedBIrBlocks,
    pub regions: RegionTable,
    pub bindings: Vec<GadgetBinding>,
}

/// What a [`SavedBoolarWithRegions`] denotes.
#[verifier::ext_equal]
pub struct RegionDocView {
    pub circuit: BIrBlocksView,
    pub regions: RegionTableView,
    pub bindings: Seq<BindingView>,
}

impl View for SavedBoolarWithRegions {
    type V = RegionDocView;

    open spec fn view(&self) -> RegionDocView {
        RegionDocView {
            circuit: self.circuit@,
            regions: self.regions@,
            bindings: binding_views(self.bindings@),
        }
    }
}

/// What was read of a document: its blocks, and each section that was there.
#[verifier::ext_equal]
pub struct SectionsView {
    pub blocks: Seq<BIrBlockView>,
    pub regions: Option<Seq<RegionEntryView>>,
    pub bindings: Option<Seq<BindingView>>,
}

/// The blocks and sections of a document, in any order; each section at most
/// once.
pub open spec fn get_sections(l: LexView, so_far: SectionsView) -> Result<SectionsView, ErrorView>
    decreases l.rest.len(),
{
    let l = l.skipped();
    if l.rest.len() == 0 {
        Ok(so_far)
    } else {
        match get_ident(l) {
            Err(e) => Err(e),
            Ok((kw, l1)) => if kw == "begin_block"@ {
                match get_u32(l1) {
                    Err(e) => Err(e),
                    Ok((_, l2)) => match get_bir_block(l2) {
                        Err(e) => Err(e),
                        Ok((b, l3)) => {
                            proof {
                                broadcast use group_shrinks;

                                lemma_bir_block_shrinks(l2);
                            }
                            get_sections(
                                l3,
                                SectionsView { blocks: so_far.blocks.push(b), ..so_far },
                            )
                        },
                    },
                }
            } else if kw == "regions"@ {
                if so_far.regions is Some {
                    Err(ErrorView::DuplicateSection(kw))
                } else {
                    match get_char(l1, '{') {
                        Err(e) => Err(e),
                        Ok((_, l2)) => match get_entries(l2, Seq::empty()) {
                            Err(e) => Err(e),
                            Ok((es, l3)) => {
                                proof {
                                    broadcast use group_shrinks;

                                    lemma_entries_shrinks(l2, Seq::empty());
                                }
                                get_sections(l3, SectionsView { regions: Some(es), ..so_far })
                            },
                        },
                    }
                }
            } else if kw == "gadgets"@ {
                if so_far.bindings is Some {
                    Err(ErrorView::DuplicateSection(kw))
                } else {
                    match get_char(l1, '{') {
                        Err(e) => Err(e),
                        Ok((_, l2)) => match get_bindings(l2, Seq::empty()) {
                            Err(e) => Err(e),
                            Ok((bs, l3)) => {
                                proof {
                                    broadcast use group_shrinks;

                                    lemma_bindings_shrinks(l2, Seq::empty());
                                }
                                get_sections(l3, SectionsView { bindings: Some(bs), ..so_far })
                            },
                        },
                    }
                }
            } else {
                Err(ErrorView::UnknownDirective(kw))
            },
        }
    }
}

/// Nothing read yet.
pub open spec fn no_sections() -> SectionsView {
    SectionsView { blocks: Seq::empty(), regions: None, bindings: None }
}

/// What reading the text `s` gives. A section that is not there is empty.
pub open spec fn get_with_regions(s: Seq<char>) -> Result<RegionDocView, ErrorView> {
    match get_bir_section(s) {
        Err(e) => Err(e),
        Ok(l) => match get_sections(l, no_sections()) {
            Err(e) => Err(e),
            Ok(d) => Ok(
                RegionDocView {
                    circuit: BIrBlocksView { blocks: d.blocks, pre_init: Seq::empty() },
                    regions: RegionTableView {
                        entries: match d.regions {
                            Some(es) => es,
                            None => Seq::empty(),
                        },
                        names: Seq::empty(),
                    },
                    bindings: match d.bindings {
                        Some(bs) => bs,
                        None => Seq::empty(),
                    },
                },
            ),
        },
    }
}

/// What was read, as a view.
spec fn sections_so_far(
    blocks: Seq<BIrBlock<()>>,
    regions: Option<RegionTable>,
    bindings: Option<Vec<GadgetBinding>>,
) -> SectionsView {
    SectionsView {
        blocks: bir_block_views(blocks),
        regions: match regions {
            Some(t) => Some(t@.entries),
            None => None,
        },
        bindings: match bindings {
            Some(bs) => Some(binding_views(bs@)),
            None => None,
        },
    }
}

/// Read a boolean program with its regions and gadgets.
#[verifier::rlimit(60)]
pub fn parse_with_regions(s: &str) -> (r: Result<SavedBoolarWithRegions, ParseError>)
    ensures
        match get_with_regions(s@) {
            Ok(d) => r matches Ok(x) && x@ == d && bir_program_sideless(x.circuit.blocks.blocks@),
            Err(e) => r matches Err(x) && x@ == e,
        },
{
    let mut lex: Lexer = match read_bir_section(s) {
        Ok(lex) => lex,
        Err(e) => {
            return Err(e);
        },
    };
    let ghost l0 = lex@;
    let mut blocks: Vec<BIrBlock<()>> = Vec::new();
    let mut regions: Option<RegionTable> = None;
    let mut bindings: Option<Vec<GadgetBinding>> = None;
    assert(bir_block_views(blocks@) =~= Seq::empty());
    while !lex.is_eof()
        invariant
            get_bir_section(s@) == Ok::<LexView, ErrorView>(l0),
            get_sections(l0, no_sections()) == get_sections(
                lex@,
                sections_so_far(blocks@, regions, bindings),
            ),
            regions matches Some(t) ==> t@.names.len() == 0,
            bir_program_sideless(blocks@),
        ensures
            lex@.rest.len() == 0,
        decreases lex@.rest.len(),
    {
        broadcast use group_shrinks;

        let ghost was = sections_so_far(blocks@, regions, bindings);
        proof {
            lemma_at_token(lex@);
        }
        let kw: String = match lex.read_ident() {
            Ok(kw) => kw,
            Err(e) => {
                return Err(e);
            },
        };
        if is_word(&kw, "begin_block") {
            match lex.read_u32() {
                Ok(_) => {},
                Err(e) => {
                    return Err(e);
                },
            }
            proof {
                lemma_bir_block_shrinks(lex@);
            }
            match parse_bir_block(&mut lex) {
                Ok(b) => {
                    let ghost before = blocks@;
                    let ghost v = b@;
                    blocks.push(b);
                    assert(bir_block_views(blocks@) =~= bir_block_views(before).push(v));
                    assert(sections_so_far(blocks@, regions, bindings) == (SectionsView {
                        blocks: was.blocks.push(v),
                        ..was
                    }));
                },
                Err(e) => {
                    return Err(e);
                },
            }
        } else if is_word(&kw, "regions") {
            if regions.is_some() {
                return Err(ParseError::DuplicateSection("regions"));
            }
            match lex.expect('{') {
                Ok(_) => {},
                Err(e) => {
                    return Err(e);
                },
            }
            proof {
                lemma_entries_shrinks(lex@, Seq::empty());
            }
            match parse_region_entries(&mut lex) {
                Ok(t) => {
                    let ghost v = t@.entries;
                    regions = Some(t);
                    assert(sections_so_far(blocks@, regions, bindings) == (SectionsView {
                        regions: Some(v),
                        ..was
                    }));
                },
                Err(e) => {
                    return Err(e);
                },
            }
        } else if is_word(&kw, "gadgets") {
            if bindings.is_some() {
                return Err(ParseError::DuplicateSection("gadgets"));
            }
            match lex.expect('{') {
                Ok(_) => {},
                Err(e) => {
                    return Err(e);
                },
            }
            proof {
                lemma_bindings_shrinks(lex@, Seq::empty());
            }
            match parse_gadget_section(&mut lex) {
                Ok(bs) => {
                    let ghost v = binding_views(bs@);
                    bindings = Some(bs);
                    assert(sections_so_far(blocks@, regions, bindings) == (SectionsView {
                        bindings: Some(v),
                        ..was
                    }));
                },
                Err(e) => {
                    return Err(e);
                },
            }
        } else {
            return Err(ParseError::UnknownDirective(kw));
        }
    }
    let ghost d = sections_so_far(blocks@, regions, bindings);
    assert(get_sections(l0, no_sections()) == Ok::<SectionsView, ErrorView>(d));
    let circuit = SavedBIrBlocks { blocks: BIrBlocks { blocks, pre_init: Vec::new() } };
    assert(circuit@.pre_init =~= Seq::empty());
    let regions: RegionTable = match regions {
        Some(t) => t,
        None => RegionTable::new(),
    };
    assert(regions@.names =~= Seq::empty());
    let bindings: Vec<GadgetBinding> = match bindings {
        Some(bs) => bs,
        None => Vec::new(),
    };
    assert(d.bindings is None ==> binding_views(bindings@) =~= Seq::empty());
    assert(d.regions is None ==> regions@.entries =~= Seq::empty());
    Ok(SavedBoolarWithRegions { circuit, regions, bindings })
}

// ---------------------------------------------------------------------------
// Reading documents back
// ---------------------------------------------------------------------------

/// The words of sections are words, and no two are the same.
proof fn lemma_section_words()
    ensures
        is_name("regions"@),
        is_name("gadgets"@),
        "regions"@[0] == 'r',
        "gadgets"@[0] == 'g',
        "regions"@ != "gadgets"@,
        "regions"@ != "begin_block"@,
        "gadgets"@ != "begin_block"@,
{
    reveal_strlit("regions");
    reveal_strlit("gadgets");
    reveal_strlit("begin_block");
}

/// The blocks of a document are read back.
#[verifier::rlimit(60)]
proof fn lemma_doc_blocks(l: LexView, bs: Seq<BIrBlockView>, i: int, k: Seq<char>) -> (m: LexView)
    requires
        0 <= i <= bs.len() <= 0x1_0000_0000,
        forall|j: int| 0 <= j < bs.len() ==> bir_block_writable(#[trigger] bs[j]),
        at_token(k),
        l.skipped().rest == bir_block_lines(bs, i) + k,
    ensures
        m.skipped().rest == k,
        get_sections(l, SectionsView { blocks: bs.take(i), regions: None, bindings: None })
            == get_sections(m, SectionsView { blocks: bs, regions: None, bindings: None }),
    decreases bs.len() - i,
{
    lemma_bir_line_words();
    if i == bs.len() {
        assert(bs.take(i) =~= bs);
        assert(bir_block_lines(bs, i) + k =~= k);
        l
    } else {
        let more = bir_block_lines(bs, i + 1);
        let text = bir_block_text(i as nat, bs[i]);
        let tail = text + (more + k);
        lemma_joined("begin_block"@, text + more, k);
        lemma_joined(text, more, k);
        assert(at_blank(tail)) by {
            assert(text[0] == ' ');
            assert(tail[0] == ' ');
        }
        let s = l.skipped();
        assert(s.rest[0] == 'b');
        lemma_at_token(s);
        lemma_blank_ends(tail);
        lemma_word(s, "begin_block"@, tail);
        let m = get_ident(s)->Ok_0.1;
        lemma_bir_block(m, i as nat, bs[i], more + k);
        let m1 = get_u32(m)->Ok_0.1;
        let m2 = get_bir_block(m1)->Ok_0.1;
        assert(at_token(more + k)) by {
            lemma_bir_blocks_start(bs, i + 1);
            if i + 1 < bs.len() {
                assert((more + k)[0] == more[0]);
            } else {
                assert(more + k =~= k);
            }
        }
        lemma_past_blank(m2, '\n', more + k);
        assert(bs.take(i + 1) =~= bs.take(i).push(bs[i]));
        lemma_doc_blocks(m2, bs, i + 1, k)
    }
}

/// The section on regions of a document is read back.
#[verifier::rlimit(60)]
proof fn lemma_doc_regions(
    l: LexView,
    blocks: Seq<BIrBlockView>,
    es: Seq<RegionEntryView>,
    k: Seq<char>,
) -> (m: LexView)
    requires
        entry_all_writable(es),
        at_token(k),
        l.skipped().rest == regions_text(es) + k,
    ensures
        m.skipped().rest == k,
        get_sections(l, SectionsView { blocks, regions: None, bindings: None }) == get_sections(
            m,
            SectionsView { blocks, regions: Some(es), bindings: None },
        ),
{
    lemma_section_words();
    let open = seq![' ', '{', '\n'];
    let lines = entry_lines(es, 0);
    let close = seq!['}', '\n'];
    let k2 = seq!['\n'] + k;
    let k1 = open + (lines + (seq!['}'] + k2));
    assert(regions_text(es) + k == "regions"@ + k1) by {
        lemma_joined("regions"@, open + (lines + close), k);
        lemma_joined(open, lines + close, k);
        lemma_joined(lines, close, k);
        assert(close + k =~= seq!['}'] + k2);
    }
    let s = l.skipped();
    assert(s.rest[0] == 'r');
    lemma_at_token(s);
    assert(k1[0] == ' ');
    lemma_blank_ends(k1);
    lemma_word(s, "regions"@, k1);
    let l1 = get_ident(s)->Ok_0.1;
    lemma_regions(l1, es, k2);
    let l2 = get_char(l1, '{')->Ok_0.1;
    let l3 = get_entries(l2, Seq::empty())->Ok_0.1;
    lemma_past_blank(l3, '\n', k);
    l3
}

/// The section on gadgets of a document is read back.
#[verifier::rlimit(60)]
proof fn lemma_doc_gadgets(
    l: LexView,
    blocks: Seq<BIrBlockView>,
    es: Seq<RegionEntryView>,
    bs: Seq<BindingView>,
)
    requires
        binding_all_writable(bs),
        l.skipped().rest == gadgets_text(bs),
    ensures
        get_sections(l, SectionsView { blocks, regions: Some(es), bindings: None }) == Ok::<
            SectionsView,
            ErrorView,
        >(SectionsView { blocks, regions: Some(es), bindings: Some(bs) }),
{
    lemma_section_words();
    let open = seq![' ', '{', '\n'];
    let lines = binding_lines(bs, 0);
    let close = seq!['}', '\n'];
    let k2 = seq!['\n'];
    let k1 = open + (lines + (seq!['}'] + k2));
    assert(close =~= seq!['}'] + k2);
    let s = l.skipped();
    assert(s.rest[0] == 'g');
    lemma_at_token(s);
    assert(k1[0] == ' ');
    lemma_blank_ends(k1);
    lemma_word(s, "gadgets"@, k1);
    let l1 = get_ident(s)->Ok_0.1;
    lemma_gadgets(l1, bs, k2);
    let l2 = get_char(l1, '{')->Ok_0.1;
    let l3 = get_bindings(l2, Seq::empty())->Ok_0.1;
    let none: Seq<char> = Seq::empty();
    assert(k2 =~= seq!['\n'] + none);
    lemma_past_blank(l3, '\n', none);
    let all = SectionsView { blocks, regions: Some(es), bindings: Some(bs) };
    assert(l3.skipped().rest.len() == 0);
    assert(get_sections(l3, all) == Ok::<SectionsView, ErrorView>(all));
}

/// What was written of a boolean program, its regions and its gadgets, one
/// behind the other, is read back as the same.
#[verifier::rlimit(60)]
pub proof fn law_with_regions_round_trip(
    p: BIrBlocksView,
    es: Seq<RegionEntryView>,
    bs: Seq<BindingView>,
)
    requires
        bir_writable(p),
        entry_all_writable(es),
        binding_all_writable(bs),
    ensures
        get_with_regions(bir_text(p) + (regions_text(es) + gadgets_text(bs))) == Ok::<
            RegionDocView,
            ErrorView,
        >(
            RegionDocView {
                circuit: p,
                regions: RegionTableView { entries: es, names: Seq::empty() },
                bindings: bs,
            },
        ),
{
    lemma_section_words();
    let g = gadgets_text(bs);
    let k = regions_text(es) + g;
    let lines = bir_block_lines(p.blocks, 0);
    let body = lines + k;
    let n = seq!['\n'];
    assert(bir_text(p) + k == "volar-ir v1"@ + (n + ("boolar:"@ + (n + body)))) by {
        lemma_joined("volar-ir v1"@, n + ("boolar:"@ + (n + lines)), k);
        lemma_joined(n, "boolar:"@ + (n + lines), k);
        lemma_joined("boolar:"@, n + lines, k);
        lemma_joined(n, lines, k);
    }
    lemma_bir_section(n + body);
    let l = get_bir_section(bir_text(p) + k)->Ok_0;
    assert(k[0] == 'r') by {
        assert(regions_text(es)[0] == 'r');
    }
    assert(g[0] == 'g');
    assert(at_token(body)) by {
        lemma_bir_blocks_start(p.blocks, 0);
        if p.blocks.len() > 0 {
            assert(body[0] == lines[0]);
        } else {
            assert(body =~= k);
        }
    }
    lemma_past_blank(l, '\n', body);
    assert(p.blocks.take(0) =~= Seq::empty());
    let m = lemma_doc_blocks(l, p.blocks, 0, k);
    let m1 = lemma_doc_regions(m, p.blocks, es, g);
    lemma_doc_gadgets(m1, p.blocks, es, bs);
    assert(p.pre_init =~= Seq::empty());
}

} // verus!
