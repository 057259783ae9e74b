//! The text of regions and gadgets, letter by letter.

use vstd::prelude::*;

use crate::common::Constant;
use crate::fmt::dec;
use crate::gadget::{AuxView, BindingView, PortKind};
use crate::region::{ascending, law_region_set, RegionEntryView, RegionId, SelectorView, WireAnchor};
use crate::text::error::ErrorView;
use crate::text::lexer::{get_ident, get_list, LexView};
use crate::text::pieces::{items_text, lemma_joined, quoted};
use crate::text::region_parts::{
    get_ids, get_range, get_span, id_list_text, ids_text, mark_text, numbered_regions, range_text,
    region_numbers, rng_text, selector_text,
};
use crate::text::regions::{
    anchor_text, aux_items, aux_text, binding_lines, binding_text, bit_numbers, entry_lines,
    entry_text, gadgets_text, get_anchor, get_aux, get_sections, regions_text, SectionsView,
};
use crate::text::typed_regions::{
    get_port, get_typed_anchor, get_typed_aux, kind_text, port_items, port_text, stub_lines,
    stub_text, typed_anchor_text, typed_aux_items, typed_aux_text, typed_binding_lines,
    typed_binding_text, typed_entry_lines, typed_entry_text, typed_gadget_specs_text,
    typed_gadgets_text, typed_regions_text, word_items, word_text, StubView,
};
use crate::typed_gadget::{TypedAuxView, TypedBindingView, TypedPortView};
use crate::typed_region::{TypedAnchor, TypedEntryView};

verus! {

// ---------------------------------------------------------------------------
// Parts
// ---------------------------------------------------------------------------

/// A range is its first position and the one behind its last.
pub proof fn law_range_written(start: nat, end: nat)
    ensures
        range_text(start, end) == "["@ + dec(start) + ", "@ + dec(end) + ")"@,
{
    reveal_strlit("[");
    reveal_strlit(", ");
    reveal_strlit(")");
    assert(range_text(start, end) =~= "["@ + dec(start) + ", "@ + dec(end) + ")"@);
}

/// A range is read as its start and its length; one that ends before it starts
/// is empty. Neither number may be above a bound.
pub proof fn law_span_read(l: LexView, max: u64, wrong: Seq<char>)
    ensures
        match get_range(l) {
            Err(e) => get_span(l, max, wrong) == Err::<((u64, u64), LexView), ErrorView>(e),
            Ok((r, m)) => {
                &&& r.0 <= r.1 && r.0 <= max && r.1 - r.0 <= max ==> get_span(l, max, wrong)
                    == Ok::<
                    ((u64, u64), LexView),
                    ErrorView,
                >(((r.0, (r.1 - r.0) as u64), m))
                &&& r.1 < r.0 <= max ==> get_span(l, max, wrong) == Ok::<
                    ((u64, u64), LexView),
                    ErrorView,
                >(((r.0, 0), m))
                &&& r.0 > max || r.1 - r.0 > max ==> get_span(l, max, wrong) == Err::<
                    ((u64, u64), LexView),
                    ErrorView,
                >(ErrorView::InvalidInt(wrong))
            },
        },
{
}

proof fn lemma_numbers_push(s: Seq<u32>, n: u32, i: int)
    requires
        0 <= i <= s.len(),
    ensures
        items_text(s.push(n), false, true, i) == items_text(s, false, true, i) + ((if s.len() == 0 {
            Seq::empty()
        } else {
            seq![',', ' ']
        }) + dec(n as nat)),
    decreases s.len() - i,
{
    let t = s.push(n);
    let sep: Seq<char> = if s.len() == 0 {
        Seq::empty()
    } else {
        seq![',', ' ']
    };
    if i == s.len() {
        assert(items_text(t, false, true, i + 1) =~= Seq::empty());
        assert(t[i] == n);
        assert(items_text(t, false, true, i) =~= sep + dec(n as nat));
        assert(items_text(s, false, true, i) + (sep + dec(n as nat)) =~= sep + dec(n as nat));
    } else {
        lemma_numbers_push(s, n, i + 1);
        assert(t[i] == s[i]);
        let first: Seq<char> = (if i == 0 {
            Seq::empty()
        } else {
            seq![',', ' ']
        }) + dec(s[i] as nat);
        lemma_joined(first, items_text(s, false, true, i + 1), sep + dec(n as nat));
    }
}

/// Regions are written by their numbers, with a comma and a blank between them:
/// in braces the regions of an entry, in square brackets those of a selector.
pub proof fn law_regions_written(s: Seq<RegionId>, r: RegionId)
    ensures
        ids_text(Seq::empty()) == "{}"@,
        id_list_text(Seq::empty()) == "[]"@,
        ids_text(seq![r]) == "{"@ + dec(r.0 as nat) + "}"@,
        id_list_text(seq![r]) == "["@ + dec(r.0 as nat) + "]"@,
        s.len() > 0 ==> ids_text(s.push(r)) == ids_text(s).drop_last() + ", "@ + dec(r.0 as nat)
            + "}"@,
        s.len() > 0 ==> id_list_text(s.push(r)) == id_list_text(s).drop_last() + ", "@ + dec(
            r.0 as nat,
        ) + "]"@,
{
    reveal_strlit("{}");
    reveal_strlit("[]");
    reveal_strlit("{");
    reveal_strlit("}");
    reveal_strlit("[");
    reveal_strlit("]");
    reveal_strlit(", ");
    let no: Seq<RegionId> = Seq::empty();
    assert(region_numbers(no) =~= Seq::empty());
    assert(items_text(Seq::<u32>::empty(), false, true, 0) =~= Seq::empty());
    assert(ids_text(no) =~= "{}"@);
    assert(id_list_text(no) =~= "[]"@);
    lemma_numbers_push(Seq::empty(), r.0, 0);
    assert(region_numbers(seq![r]) =~= Seq::<u32>::empty().push(r.0));
    assert(ids_text(seq![r]) =~= "{"@ + dec(r.0 as nat) + "}"@);
    assert(id_list_text(seq![r]) =~= "["@ + dec(r.0 as nat) + "]"@);
    if s.len() > 0 {
        let ns = region_numbers(s);
        lemma_numbers_push(ns, r.0, 0);
        assert(region_numbers(s.push(r)) =~= ns.push(r.0));
        let items = items_text(ns, false, true, 0);
        assert(", "@ =~= seq![',', ' ']);
        assert(ids_text(s).drop_last() =~= seq!['{'] + items);
        assert(id_list_text(s).drop_last() =~= seq!['['] + items);
        assert(ids_text(s.push(r)) =~= ids_text(s).drop_last() + ", "@ + dec(r.0 as nat) + "}"@);
        assert(id_list_text(s.push(r)) =~= id_list_text(s).drop_last() + ", "@ + dec(r.0 as nat)
            + "]"@);
    }
}

/// A selector is the regions that it asks for and those that it excludes.
pub proof fn law_selector_written(s: SelectorView)
    ensures
        selector_text(s) == "{all="@ + id_list_text(s.all_of) + ", none="@ + id_list_text(s.none_of)
            + "}"@,
{
    reveal_strlit("{all=");
    reveal_strlit("all");
    reveal_strlit(", none=");
    reveal_strlit("none");
    reveal_strlit("}");
    assert("{all="@ =~= seq!['{'] + ("all"@ + seq!['=']));
    assert(", none="@ =~= seq![',', ' '] + ("none"@ + seq!['=']));
    assert("}"@ =~= seq!['}']);
    let a = id_list_text(s.all_of);
    let b = id_list_text(s.none_of);
    assert(selector_text(s) =~= "{all="@ + a + ", none="@ + b + "}"@);
}

/// A named source of random bits is written behind a blank.
pub proof fn law_random_source_written(name: Seq<char>)
    ensures
        rng_text(None) == ""@,
        rng_text(Some(name)) == " rng_source="@ + quoted(name),
{
    reveal_strlit("");
    reveal_strlit(" rng_source=");
    reveal_strlit("rng_source");
    assert(rng_text(None) =~= ""@);
    assert(" rng_source="@ =~= seq![' '] + ("rng_source"@ + seq!['=']));
    assert(rng_text(Some(name)) =~= " rng_source="@ + quoted(name));
}

// ---------------------------------------------------------------------------
// Boolean circuits
// ---------------------------------------------------------------------------

/// An anchor is its kind, its space and its range.
pub proof fn law_anchor_written(a: WireAnchor)
    ensures
        match a {
            WireAnchor::Input { start, len } => anchor_text(a) == "input "@ + range_text(
                start as nat,
                (start + len) as nat,
            ),
            WireAnchor::Output { start, len } => anchor_text(a) == "output "@ + range_text(
                start as nat,
                (start + len) as nat,
            ),
            WireAnchor::Storage { storage, lane, start, len } => anchor_text(a) == "storage S"@
                + dec(
                storage.0 as nat,
            ) + " L"@ + dec(lane.0 as nat) + " "@ + range_text(start as nat, (start + len) as nat),
        },
{
    reveal_strlit("input ");
    reveal_strlit("input");
    reveal_strlit("output ");
    reveal_strlit("output");
    reveal_strlit("storage S");
    reveal_strlit("storage");
    reveal_strlit(" L");
    reveal_strlit(" ");
    assert("input "@ =~= "input"@ + seq![' ']);
    assert("output "@ =~= "output"@ + seq![' ']);
    assert("storage S"@ =~= "storage"@ + seq![' ', 'S']);
    assert(" L"@ =~= seq![' ', 'L']);
    assert(" "@ =~= seq![' ']);
    match a {
        WireAnchor::Input { start, len } => {
            let r = range_text(start as nat, (start + len) as nat);
            assert(anchor_text(a) =~= "input "@ + r);
        },
        WireAnchor::Output { start, len } => {
            let r = range_text(start as nat, (start + len) as nat);
            assert(anchor_text(a) =~= "output "@ + r);
        },
        WireAnchor::Storage { storage, lane, start, len } => {
            let r = range_text(start as nat, (start + len) as nat);
            let s = dec(storage.0 as nat);
            let n = dec(lane.0 as nat);
            assert(anchor_text(a) =~= "storage S"@ + s + " L"@ + n + " "@ + r);
        },
    }
}

/// Which word an anchor and a source are read behind.
pub proof fn law_anchor_words(l: LexView)
    ensures
        match get_ident(l) {
            Err(e) => get_anchor(l) == Err::<(WireAnchor, LexView), ErrorView>(e) && get_aux(l)
                == Err::<(AuxView, LexView), ErrorView>(e),
            Ok((word, _)) => {
                &&& match get_anchor(l) {
                    Ok((a, _)) => match a {
                        WireAnchor::Input { .. } => word == "input"@,
                        WireAnchor::Output { .. } => word == "output"@,
                        WireAnchor::Storage { .. } => word == "storage"@,
                    },
                    Err(_) => true,
                }
                &&& word != "input"@ && word != "output"@ && word != "storage"@ ==> get_anchor(l)
                    == Err::<(WireAnchor, LexView), ErrorView>(ErrorView::UnknownDirective(word))
                &&& match get_aux(l) {
                    Ok((a, _)) => match a {
                        AuxView::InputRange { .. } => word == "input"@,
                        AuxView::Const(_) => word == "const"@,
                        AuxView::Rng(_) => word == "rng"@,
                    },
                    Err(_) => true,
                }
                &&& word != "input"@ && word != "const"@ && word != "rng"@ ==> get_aux(l) == Err::<
                    (AuxView, LexView),
                    ErrorView,
                >(ErrorView::UnknownDirective(word))
            },
        },
{
}

/// An entry is its anchor and its regions.
pub proof fn law_entry_written(e: RegionEntryView, t: TypedEntryView)
    ensures
        entry_text(e) == anchor_text(e.anchor) + " -> "@ + ids_text(e.regions),
        typed_entry_text(t) == typed_anchor_text(t.anchor) + " -> "@ + ids_text(t.regions),
{
    reveal_strlit(" -> ");
    assert(" -> "@ =~= seq![' ', '-', '>', ' ']);
    lemma_joined(anchor_text(e.anchor), " -> "@, ids_text(e.regions));
    lemma_joined(typed_anchor_text(t.anchor), " -> "@, ids_text(t.regions));
}

/// Constant bits are zeros and ones, with a comma and a blank between them.
pub proof fn law_bits_written(s: Seq<bool>, b: bool)
    ensures
        aux_text(AuxView::Const(Seq::empty())) == "const []"@,
        aux_text(AuxView::Const(seq![b])) == (if b {
            "const [1]"@
        } else {
            "const [0]"@
        }),
        s.len() > 0 ==> aux_text(AuxView::Const(s.push(b))) == aux_text(
            AuxView::Const(s),
        ).drop_last() + (if b {
            ", 1]"@
        } else {
            ", 0]"@
        }),
{
    reveal_strlit("const");
    reveal_strlit("const []");
    reveal_strlit("const [1]");
    reveal_strlit("const [0]");
    reveal_strlit(", 1]");
    reveal_strlit(", 0]");
    let n: u32 = if b {
        1
    } else {
        0
    };
    assert(dec(1) =~= seq!['1']);
    assert(dec(0) =~= seq!['0']);
    let no: Seq<bool> = Seq::empty();
    assert(bit_numbers(no) =~= Seq::empty());
    assert(items_text(Seq::<u32>::empty(), false, true, 0) =~= Seq::empty());
    assert(aux_text(AuxView::Const(no)) =~= "const []"@);
    lemma_numbers_push(Seq::empty(), n, 0);
    assert(bit_numbers(seq![b]) =~= Seq::<u32>::empty().push(n));
    assert(items_text(bit_numbers(seq![b]), false, true, 0) =~= dec(n as nat));
    assert(aux_text(AuxView::Const(seq![b])) =~= (if b {
        "const [1]"@
    } else {
        "const [0]"@
    }));
    if s.len() > 0 {
        let ns = bit_numbers(s);
        lemma_numbers_push(ns, n, 0);
        assert(bit_numbers(s.push(b)) =~= ns.push(n));
        let items = items_text(ns, false, true, 0);
        let head = "const"@ + (seq![' '] + (seq!['['] + items));
        assert(aux_text(AuxView::Const(s)).drop_last() =~= head);
        let tail = if b {
            ", 1]"@
        } else {
            ", 0]"@
        };
        assert(tail =~= seq![',', ' '] + dec(n as nat) + seq![']']);
        assert(aux_text(AuxView::Const(s.push(b))) =~= head + tail);
    }
}

/// The other sources are a range of inputs and a named random source.
pub proof fn law_source_written(start: u32, len: u32, name: Seq<char>)
    ensures
        aux_text(AuxView::InputRange { start, len }) == "input "@ + range_text(
            start as nat,
            (start + len) as nat,
        ),
        aux_text(AuxView::Rng(name)) == "rng "@ + quoted(name),
{
    reveal_strlit("input ");
    reveal_strlit("input");
    reveal_strlit("rng ");
    reveal_strlit("rng");
    assert("input "@ =~= "input"@ + seq![' ']);
    assert("rng "@ =~= "rng"@ + seq![' ']);
    let r = range_text(start as nat, (start + len) as nat);
    assert(aux_text(AuxView::InputRange { start, len }) =~= "input "@ + r);
    assert(aux_text(AuxView::Rng(name)) =~= "rng "@ + quoted(name));
}

proof fn lemma_aux_items_push(es: Seq<AuxView>, e: AuxView, i: int)
    requires
        0 <= i <= es.len(),
    ensures
        aux_items(es.push(e), i) == aux_items(es, i) + ((if es.len() == 0 {
            Seq::empty()
        } else {
            seq![',', ' ']
        }) + aux_text(e)),
    decreases es.len() - i,
{
    let all = es.push(e);
    let sep: Seq<char> = if es.len() == 0 {
        Seq::empty()
    } else {
        seq![',', ' ']
    };
    let line = sep + aux_text(e);
    if i == es.len() {
        assert(aux_items(all, i + 1) =~= Seq::empty());
        assert(all[i] == e);
        assert(aux_text(e) + aux_items(all, i + 1) =~= aux_text(e));
        assert(aux_items(es, i) + line =~= line);
    } else {
        lemma_aux_items_push(es, e, i + 1);
        assert(all[i] == es[i]);
        let more = aux_items(es, i + 1);
        let a = aux_text(es[i]);
        let first: Seq<char> = if i == 0 {
            Seq::empty()
        } else {
            seq![',', ' ']
        };
        lemma_joined(a, more, line);
        lemma_joined(first, a + more, line);
    }
}

/// Sources stand between commas.
pub proof fn law_sources_written(es: Seq<AuxView>, e: AuxView)
    ensures
        aux_items(Seq::empty(), 0) == ""@,
        aux_items(seq![e], 0) == aux_text(e),
        es.len() > 0 ==> aux_items(es.push(e), 0) == aux_items(es, 0) + ", "@ + aux_text(e),
{
    reveal_strlit("");
    reveal_strlit(", ");
    assert(", "@ =~= seq![',', ' ']);
    assert(aux_items(Seq::empty(), 0) =~= ""@);
    let no: Seq<AuxView> = Seq::empty();
    lemma_aux_items_push(no, e, 0);
    assert(no.push(e) =~= seq![e]);
    assert(aux_items(seq![e], 0) =~= aux_text(e));
    lemma_aux_items_push(es, e, 0);
    let a = aux_items(es, 0);
    let t = aux_text(e);
    assert(a + (seq![',', ' '] + t) =~= a + ", "@ + t);
}

proof fn lemma_entry_lines_push(es: Seq<RegionEntryView>, e: RegionEntryView, i: int)
    requires
        0 <= i <= es.len(),
    ensures
        entry_lines(es.push(e), i) == entry_lines(es, i) + (seq![' ', ' '] + (entry_text(e)
            + seq!['\n'])),
    decreases es.len() - i,
{
    let all = es.push(e);
    let line = seq![' ', ' '] + (entry_text(e) + seq!['\n']);
    if i == es.len() {
        assert(entry_lines(all, i + 1) =~= Seq::empty());
        assert(all[i] == e);
        assert(seq!['\n'] + entry_lines(all, i + 1) =~= seq!['\n']);
        assert(entry_lines(es, i) + line =~= line);
    } else {
        lemma_entry_lines_push(es, e, i + 1);
        assert(all[i] == es[i]);
        let more = entry_lines(es, i + 1);
        let a = entry_text(es[i]);
        lemma_joined(seq!['\n'], more, line);
        lemma_joined(a, seq!['\n'] + more, line);
        lemma_joined(seq![' ', ' '], a + (seq!['\n'] + more), line);
    }
}

/// Each entry has a line.
pub proof fn law_entry_lines_written(es: Seq<RegionEntryView>, e: RegionEntryView)
    ensures
        entry_lines(Seq::empty(), 0) == ""@,
        entry_lines(es.push(e), 0) == entry_lines(es, 0) + "  "@ + entry_text(e) + "\n"@,
{
    reveal_strlit("");
    reveal_strlit("  ");
    reveal_strlit("\n");
    assert("\n"@ =~= seq!['\n']);
    assert("  "@ =~= seq![' ', ' ']);
    assert(entry_lines(Seq::empty(), 0) =~= ""@);
    lemma_entry_lines_push(es, e, 0);
    let a = entry_lines(es, 0);
    let t = entry_text(e);
    assert(a + (seq![' ', ' '] + (t + seq!['\n'])) =~= a + "  "@ + t + "\n"@);
}

proof fn lemma_binding_lines_push(es: Seq<BindingView>, e: BindingView, i: int)
    requires
        0 <= i <= es.len(),
    ensures
        binding_lines(es.push(e), i) == binding_lines(es, i) + (seq![' ', ' '] + (binding_text(e)
            + seq!['\n'])),
    decreases es.len() - i,
{
    let all = es.push(e);
    let line = seq![' ', ' '] + (binding_text(e) + seq!['\n']);
    if i == es.len() {
        assert(binding_lines(all, i + 1) =~= Seq::empty());
        assert(all[i] == e);
        assert(seq!['\n'] + binding_lines(all, i + 1) =~= seq!['\n']);
        assert(binding_lines(es, i) + line =~= line);
    } else {
        lemma_binding_lines_push(es, e, i + 1);
        assert(all[i] == es[i]);
        let more = binding_lines(es, i + 1);
        let a = binding_text(es[i]);
        lemma_joined(seq!['\n'], more, line);
        lemma_joined(a, seq!['\n'] + more, line);
        lemma_joined(seq![' ', ' '], a + (seq!['\n'] + more), line);
    }
}

/// Each use of a gadget has a line.
pub proof fn law_binding_lines_written(es: Seq<BindingView>, e: BindingView)
    ensures
        binding_lines(Seq::empty(), 0) == ""@,
        binding_lines(es.push(e), 0) == binding_lines(es, 0) + "  "@ + binding_text(e) + "\n"@,
{
    reveal_strlit("");
    reveal_strlit("  ");
    reveal_strlit("\n");
    assert("\n"@ =~= seq!['\n']);
    assert("  "@ =~= seq![' ', ' ']);
    assert(binding_lines(Seq::empty(), 0) =~= ""@);
    lemma_binding_lines_push(es, e, 0);
    let a = binding_lines(es, 0);
    let t = binding_text(e);
    assert(a + (seq![' ', ' '] + (t + seq!['\n'])) =~= a + "  "@ + t + "\n"@);
}

/// The use of a gadget is its name, what it is used on and its sources.
pub proof fn law_binding_written(b: BindingView)
    ensures
        binding_text(b) == "gadget "@ + quoted(b.gadget) + " on "@ + selector_text(b.selector)
            + " aux=["@
            + aux_items(b.aux_sources, 0) + "]"@ + rng_text(b.rng_source),
{
    reveal_strlit("gadget ");
    reveal_strlit("gadget");
    reveal_strlit(" on ");
    reveal_strlit("on");
    reveal_strlit(" aux=[");
    reveal_strlit("aux");
    reveal_strlit("]");
    assert("gadget "@ =~= "gadget"@ + seq![' ']);
    assert(" on "@ =~= seq![' '] + ("on"@ + seq![' ']));
    assert(" aux=["@ =~= seq![' '] + ("aux"@ + (seq!['='] + seq!['['])));
    assert("]"@ =~= seq![']']);
    let g = quoted(b.gadget);
    let s = selector_text(b.selector);
    let x = aux_items(b.aux_sources, 0);
    let r = rng_text(b.rng_source);
    let tail = seq![' '] + ("aux"@ + (seq!['='] + (seq!['['] + (x + (seq![']'] + r)))));
    assert(tail =~= " aux=["@ + x + "]"@ + r);
    let mid = seq![' '] + ("on"@ + (seq![' '] + (s + tail)));
    assert(mid =~= " on "@ + s + tail);
    assert(binding_text(b) =~= "gadget "@ + g + mid);
    lemma_joined("gadget "@ + g, " on "@ + s, tail);
    lemma_joined("gadget "@ + g, " on "@, s);
    lemma_joined("gadget "@ + g + " on "@ + s, " aux=["@ + x + "]"@, r);
    lemma_joined("gadget "@ + g + " on "@ + s, " aux=["@ + x, "]"@);
    lemma_joined("gadget "@ + g + " on "@ + s, " aux=["@, x);
}

/// The section of regions.
pub proof fn law_region_section_written(es: Seq<RegionEntryView>)
    ensures
        regions_text(es) == "regions {\n"@ + entry_lines(es, 0) + "}\n"@,
{
    reveal_strlit("regions {\n");
    reveal_strlit("regions");
    reveal_strlit("}\n");
    assert("regions {\n"@ =~= "regions"@ + seq![' ', '{', '\n']);
    assert("}\n"@ =~= seq!['}', '\n']);
    let t = entry_lines(es, 0);
    assert(regions_text(es) =~= "regions {\n"@ + t + "}\n"@);
}

/// The section of gadgets.
pub proof fn law_gadget_section_written(es: Seq<BindingView>)
    ensures
        gadgets_text(es) == "gadgets {\n"@ + binding_lines(es, 0) + "}\n"@,
{
    reveal_strlit("gadgets {\n");
    reveal_strlit("gadgets");
    reveal_strlit("}\n");
    assert("gadgets {\n"@ =~= "gadgets"@ + seq![' ', '{', '\n']);
    assert("}\n"@ =~= seq!['}', '\n']);
    let t = binding_lines(es, 0);
    assert(gadgets_text(es) =~= "gadgets {\n"@ + t + "}\n"@);
}

// ---------------------------------------------------------------------------
// Typed programs
// ---------------------------------------------------------------------------

/// An anchor is its kind, what it is of and its range.
pub proof fn law_typed_anchor_written(a: TypedAnchor)
    ensures
        match a {
            TypedAnchor::Input { param, start, len } => typed_anchor_text(a) == "input p"@
                + dec(param as nat) + " "@ + range_text(
                start as nat,
                (start + len) as nat,
            ),
            TypedAnchor::BlockInput { block, param, start, len } => typed_anchor_text(a)
                == "block_input b"@ + dec(block.0 as nat) + " p"@ + dec(param as nat) + " "@
                + range_text(
                start as nat,
                (start + len) as nat,
            ),
            TypedAnchor::FuncInput { func, param, start, len } => typed_anchor_text(a)
                == "func_input f"@ + dec(func as nat) + " p"@ + dec(param as nat) + " "@
                + range_text(
                start as nat,
                (start + len) as nat,
            ),
            TypedAnchor::Output { out, start, len } => typed_anchor_text(a) == "output o"@
                + dec(out as nat) + " "@ + range_text(
                start as nat,
                (start + len) as nat,
            ),
            TypedAnchor::FuncOutput { func, result, start, len } => typed_anchor_text(a)
                == "func_output f"@ + dec(func as nat) + " r"@ + dec(result as nat) + " "@
                + range_text(
                start as nat,
                (start + len) as nat,
            ),
            TypedAnchor::Storage { storage, ty, addr_start, addr_len } => typed_anchor_text(a)
                == "storage S"@ + dec(storage.0 as nat) + " T"@ + dec(ty.0 as nat) + " "@
                + range_text(
                addr_start as nat,
                (addr_start + addr_len) as nat,
            ),
        },
{
    reveal(typed_anchor_text);
    reveal_strlit(" ");
    assert(" "@ =~= seq![' ']);
    match a {
        TypedAnchor::Input { param, start, len } => {
            let r = range_text(start as nat, (start + len) as nat);
            let n0 = dec(param as nat);
            reveal_strlit("input p");
            reveal_strlit("input");
            assert("input p"@ =~= "input"@ + seq![' ', 'p']);
            assert(typed_anchor_text(a) =~= "input p"@ + n0 + " "@ + r);
        },
        TypedAnchor::BlockInput { block, param, start, len } => {
            let r = range_text(start as nat, (start + len) as nat);
            let n0 = dec(block.0 as nat);
            reveal_strlit("block_input b");
            reveal_strlit("block_input");
            assert("block_input b"@ =~= "block_input"@ + seq![' ', 'b']);
            let n1 = dec(param as nat);
            reveal_strlit(" p");
            assert(" p"@ =~= seq![' ', 'p']);
            assert(typed_anchor_text(a) =~= "block_input b"@ + n0 + " p"@ + n1 + " "@ + r);
        },
        TypedAnchor::FuncInput { func, param, start, len } => {
            let r = range_text(start as nat, (start + len) as nat);
            let n0 = dec(func as nat);
            reveal_strlit("func_input f");
            reveal_strlit("func_input");
            assert("func_input f"@ =~= "func_input"@ + seq![' ', 'f']);
            let n1 = dec(param as nat);
            reveal_strlit(" p");
            assert(" p"@ =~= seq![' ', 'p']);
            assert(typed_anchor_text(a) =~= "func_input f"@ + n0 + " p"@ + n1 + " "@ + r);
        },
        TypedAnchor::Output { out, start, len } => {
            let r = range_text(start as nat, (start + len) as nat);
            let n0 = dec(out as nat);
            reveal_strlit("output o");
            reveal_strlit("output");
            assert("output o"@ =~= "output"@ + seq![' ', 'o']);
            assert(typed_anchor_text(a) =~= "output o"@ + n0 + " "@ + r);
        },
        TypedAnchor::FuncOutput { func, result, start, len } => {
            let r = range_text(start as nat, (start + len) as nat);
            let n0 = dec(func as nat);
            reveal_strlit("func_output f");
            reveal_strlit("func_output");
            assert("func_output f"@ =~= "func_output"@ + seq![' ', 'f']);
            let n1 = dec(result as nat);
            reveal_strlit(" r");
            assert(" r"@ =~= seq![' ', 'r']);
            assert(typed_anchor_text(a) =~= "func_output f"@ + n0 + " r"@ + n1 + " "@ + r);
        },
        TypedAnchor::Storage { storage, ty, addr_start, addr_len } => {
            let r = range_text(addr_start as nat, (addr_start + addr_len) as nat);
            let n0 = dec(storage.0 as nat);
            reveal_strlit("storage S");
            reveal_strlit("storage");
            assert("storage S"@ =~= "storage"@ + seq![' ', 'S']);
            let n1 = dec(ty.0 as nat);
            reveal_strlit(" T");
            assert(" T"@ =~= seq![' ', 'T']);
            assert(typed_anchor_text(a) =~= "storage S"@ + n0 + " T"@ + n1 + " "@ + r);
        },
    }
}

/// Which word an anchor, a source and a port are read behind.
pub proof fn law_typed_words(l: LexView)
    ensures
        match get_ident(l) {
            Err(e) => get_typed_anchor(l) == Err::<(TypedAnchor, LexView), ErrorView>(e)
                && get_typed_aux(l) == Err::<(TypedAuxView, LexView), ErrorView>(e) && get_port(l)
                == Err::<(TypedPortView, LexView), ErrorView>(e),
            Ok((word, _)) => {
                &&& match get_typed_anchor(l) {
                    Ok((a, _)) => match a {
                        TypedAnchor::Input { .. } => word == "input"@,
                        TypedAnchor::BlockInput { .. } => word == "block_input"@,
                        TypedAnchor::FuncInput { .. } => word == "func_input"@,
                        TypedAnchor::Output { .. } => word == "output"@,
                        TypedAnchor::FuncOutput { .. } => word == "func_output"@,
                        TypedAnchor::Storage { .. } => word == "storage"@,
                    },
                    Err(_) => true,
                }
                &&& match get_typed_aux(l) {
                    Ok((a, _)) => match a {
                        TypedAuxView::InputRange { .. } => word == "input"@,
                        TypedAuxView::Const(_) => word == "const"@,
                        TypedAuxView::Rng(_) => word == "rng"@,
                    },
                    Err(_) => true,
                }
                &&& match get_port(l) {
                    Ok((p, _)) => match p.kind {
                        PortKind::Data => word == "data"@,
                        PortKind::Aux => word == "aux"@,
                        PortKind::Rng => word == "rng"@,
                    },
                    Err(_) => true,
                }
            },
        },
{
    reveal(get_typed_anchor);
    reveal(get_typed_aux);
}

/// A constant word is its low half, and its high half if that is not zero.
pub proof fn law_word_written(c: Constant)
    ensures
        c.hi == 0 ==> word_text(c) == "<"@ + dec(c.lo as nat) + ">"@,
        c.hi != 0 ==> word_text(c) == "<"@ + dec(c.lo as nat) + ":"@ + dec(c.hi as nat) + ">"@,
{
    reveal_strlit("<");
    reveal_strlit(":");
    reveal_strlit(">");
    assert("<"@ =~= seq!['<']);
    assert(":"@ =~= seq![':']);
    assert(">"@ =~= seq!['>']);
    let a = dec(c.lo as nat);
    let b = dec(c.hi as nat);
    if c.hi == 0 {
        assert(word_text(c) =~= "<"@ + a + ">"@);
    } else {
        assert(word_text(c) =~= "<"@ + a + ":"@ + b + ">"@);
    }
}

/// A source is a place in a parameter, constant words or a random source.
pub proof fn law_typed_source_written(a: TypedAuxView)
    ensures
        match a {
            TypedAuxView::InputRange { param, start } => typed_aux_text(a) == "input p"@ + dec(
                param as nat,
            ) + " ["@ + dec(start as nat) + "]"@,
            TypedAuxView::Const(words) => typed_aux_text(a) == "const "@ + word_items(words, 0),
            TypedAuxView::Rng(name) => typed_aux_text(a) == "rng "@ + quoted(name),
        },
{
    reveal(typed_aux_text);
    reveal_strlit("input p");
    reveal_strlit("input");
    reveal_strlit(" [");
    reveal_strlit("]");
    reveal_strlit("const ");
    reveal_strlit("const");
    reveal_strlit("rng ");
    reveal_strlit("rng");
    assert("input p"@ =~= "input"@ + seq![' ', 'p']);
    assert(" ["@ =~= seq![' ', '[']);
    assert("]"@ =~= seq![']']);
    assert("const "@ =~= "const"@ + seq![' ']);
    assert("rng "@ =~= "rng"@ + seq![' ']);
    match a {
        TypedAuxView::InputRange { param, start } => {
            let p = dec(param as nat);
            let s = dec(start as nat);
            assert(typed_aux_text(a) =~= "input p"@ + p + " ["@ + s + "]"@);
        },
        TypedAuxView::Const(words) => {
            let w = word_items(words, 0);
            assert(typed_aux_text(a) =~= "const "@ + w);
        },
        TypedAuxView::Rng(name) => {
            assert(typed_aux_text(a) =~= "rng "@ + quoted(name));
        },
    }
}

proof fn lemma_word_items_push(es: Seq<Constant>, e: Constant, i: int)
    requires
        0 <= i <= es.len(),
    ensures
        word_items(es.push(e), i) == word_items(es, i) + ((if es.len() == 0 {
            Seq::empty()
        } else {
            seq![',', ' ']
        }) + word_text(e)),
    decreases es.len() - i,
{
    let all = es.push(e);
    let sep: Seq<char> = if es.len() == 0 {
        Seq::empty()
    } else {
        seq![',', ' ']
    };
    let line = sep + word_text(e);
    if i == es.len() {
        assert(word_items(all, i + 1) =~= Seq::empty());
        assert(all[i] == e);
        assert(word_text(e) + word_items(all, i + 1) =~= word_text(e));
        assert(word_items(es, i) + line =~= line);
    } else {
        lemma_word_items_push(es, e, i + 1);
        assert(all[i] == es[i]);
        let more = word_items(es, i + 1);
        let a = word_text(es[i]);
        let first: Seq<char> = if i == 0 {
            Seq::empty()
        } else {
            seq![',', ' ']
        };
        lemma_joined(a, more, line);
        lemma_joined(first, a + more, line);
    }
}

/// Constant words stand between commas.
pub proof fn law_words_written(es: Seq<Constant>, e: Constant)
    ensures
        word_items(Seq::empty(), 0) == ""@,
        word_items(seq![e], 0) == word_text(e),
        es.len() > 0 ==> word_items(es.push(e), 0) == word_items(es, 0) + ", "@ + word_text(e),
{
    reveal_strlit("");
    reveal_strlit(", ");
    assert(", "@ =~= seq![',', ' ']);
    assert(word_items(Seq::empty(), 0) =~= ""@);
    let no: Seq<Constant> = Seq::empty();
    lemma_word_items_push(no, e, 0);
    assert(no.push(e) =~= seq![e]);
    assert(word_items(seq![e], 0) =~= word_text(e));
    lemma_word_items_push(es, e, 0);
    let a = word_items(es, 0);
    let t = word_text(e);
    assert(a + (seq![',', ' '] + t) =~= a + ", "@ + t);
}

proof fn lemma_typed_aux_items_push(es: Seq<TypedAuxView>, e: TypedAuxView, i: int)
    requires
        0 <= i <= es.len(),
    ensures
        typed_aux_items(es.push(e), i) == typed_aux_items(es, i) + ((if es.len() == 0 {
            Seq::empty()
        } else {
            seq![',', ' ']
        }) + typed_aux_text(e)),
    decreases es.len() - i,
{
    let all = es.push(e);
    let sep: Seq<char> = if es.len() == 0 {
        Seq::empty()
    } else {
        seq![',', ' ']
    };
    let line = sep + typed_aux_text(e);
    if i == es.len() {
        assert(typed_aux_items(all, i + 1) =~= Seq::empty());
        assert(all[i] == e);
        assert(typed_aux_text(e) + typed_aux_items(all, i + 1) =~= typed_aux_text(e));
        assert(typed_aux_items(es, i) + line =~= line);
    } else {
        lemma_typed_aux_items_push(es, e, i + 1);
        assert(all[i] == es[i]);
        let more = typed_aux_items(es, i + 1);
        let a = typed_aux_text(es[i]);
        let first: Seq<char> = if i == 0 {
            Seq::empty()
        } else {
            seq![',', ' ']
        };
        lemma_joined(a, more, line);
        lemma_joined(first, a + more, line);
    }
}

/// Sources stand between commas.
pub proof fn law_typed_sources_written(es: Seq<TypedAuxView>, e: TypedAuxView)
    ensures
        typed_aux_items(Seq::empty(), 0) == ""@,
        typed_aux_items(seq![e], 0) == typed_aux_text(e),
        es.len() > 0 ==> typed_aux_items(es.push(e), 0) == typed_aux_items(es, 0) + ", "@
            + typed_aux_text(e),
{
    reveal_strlit("");
    reveal_strlit(", ");
    assert(", "@ =~= seq![',', ' ']);
    assert(typed_aux_items(Seq::empty(), 0) =~= ""@);
    let no: Seq<TypedAuxView> = Seq::empty();
    lemma_typed_aux_items_push(no, e, 0);
    assert(no.push(e) =~= seq![e]);
    assert(typed_aux_items(seq![e], 0) =~= typed_aux_text(e));
    lemma_typed_aux_items_push(es, e, 0);
    let a = typed_aux_items(es, 0);
    let t = typed_aux_text(e);
    assert(a + (seq![',', ' '] + t) =~= a + ", "@ + t);
}

/// The use of a gadget is its name, what it is used on and its sources.
pub proof fn law_typed_binding_written(b: TypedBindingView)
    ensures
        typed_binding_text(b) == "gadget "@ + quoted(b.gadget) + " on "@ + selector_text(b.selector)
            + " aux=["@
            + typed_aux_items(b.aux_sources, 0) + "]"@ + rng_text(b.rng_source),
{
    reveal_strlit("gadget ");
    reveal_strlit("gadget");
    reveal_strlit(" on ");
    reveal_strlit("on");
    reveal_strlit(" aux=[");
    reveal_strlit("aux");
    reveal_strlit("]");
    assert("gadget "@ =~= "gadget"@ + seq![' ']);
    assert(" on "@ =~= seq![' '] + ("on"@ + seq![' ']));
    assert(" aux=["@ =~= seq![' '] + ("aux"@ + (seq!['='] + seq!['['])));
    assert("]"@ =~= seq![']']);
    let g = quoted(b.gadget);
    let s = selector_text(b.selector);
    let x = typed_aux_items(b.aux_sources, 0);
    let r = rng_text(b.rng_source);
    let tail = seq![' '] + ("aux"@ + (seq!['='] + (seq!['['] + (x + (seq![']'] + r)))));
    assert(tail =~= " aux=["@ + x + "]"@ + r);
    let mid = seq![' '] + ("on"@ + (seq![' '] + (s + tail)));
    assert(mid =~= " on "@ + s + tail);
    assert(typed_binding_text(b) =~= "gadget "@ + g + mid);
    lemma_joined("gadget "@ + g, " on "@ + s, tail);
    lemma_joined("gadget "@ + g, " on "@, s);
    lemma_joined("gadget "@ + g + " on "@ + s, " aux=["@ + x + "]"@, r);
    lemma_joined("gadget "@ + g + " on "@ + s, " aux=["@ + x, "]"@);
    lemma_joined("gadget "@ + g + " on "@ + s, " aux=["@, x);
}

proof fn lemma_typed_entry_lines_push(es: Seq<TypedEntryView>, e: TypedEntryView, i: int)
    requires
        0 <= i <= es.len(),
    ensures
        typed_entry_lines(es.push(e), i) == typed_entry_lines(es, i) + (seq![' ', ' ']
            + (typed_entry_text(e) + seq!['\n'])),
    decreases es.len() - i,
{
    let all = es.push(e);
    let line = seq![' ', ' '] + (typed_entry_text(e) + seq!['\n']);
    if i == es.len() {
        assert(typed_entry_lines(all, i + 1) =~= Seq::empty());
        assert(all[i] == e);
        assert(seq!['\n'] + typed_entry_lines(all, i + 1) =~= seq!['\n']);
        assert(typed_entry_lines(es, i) + line =~= line);
    } else {
        lemma_typed_entry_lines_push(es, e, i + 1);
        assert(all[i] == es[i]);
        let more = typed_entry_lines(es, i + 1);
        let a = typed_entry_text(es[i]);
        lemma_joined(seq!['\n'], more, line);
        lemma_joined(a, seq!['\n'] + more, line);
        lemma_joined(seq![' ', ' '], a + (seq!['\n'] + more), line);
    }
}

/// Each entry has a line.
pub proof fn law_typed_entry_lines_written(es: Seq<TypedEntryView>, e: TypedEntryView)
    ensures
        typed_entry_lines(Seq::empty(), 0) == ""@,
        typed_entry_lines(es.push(e), 0) == typed_entry_lines(es, 0) + "  "@ + typed_entry_text(e)
            + "\n"@,
{
    reveal_strlit("");
    reveal_strlit("  ");
    reveal_strlit("\n");
    assert("\n"@ =~= seq!['\n']);
    assert("  "@ =~= seq![' ', ' ']);
    assert(typed_entry_lines(Seq::empty(), 0) =~= ""@);
    lemma_typed_entry_lines_push(es, e, 0);
    let a = typed_entry_lines(es, 0);
    let t = typed_entry_text(e);
    assert(a + (seq![' ', ' '] + (t + seq!['\n'])) =~= a + "  "@ + t + "\n"@);
}

proof fn lemma_typed_binding_lines_push(es: Seq<TypedBindingView>, e: TypedBindingView, i: int)
    requires
        0 <= i <= es.len(),
    ensures
        typed_binding_lines(es.push(e), i) == typed_binding_lines(es, i) + (seq![' ', ' ']
            + (typed_binding_text(e) + seq!['\n'])),
    decreases es.len() - i,
{
    let all = es.push(e);
    let line = seq![' ', ' '] + (typed_binding_text(e) + seq!['\n']);
    if i == es.len() {
        assert(typed_binding_lines(all, i + 1) =~= Seq::empty());
        assert(all[i] == e);
        assert(seq!['\n'] + typed_binding_lines(all, i + 1) =~= seq!['\n']);
        assert(typed_binding_lines(es, i) + line =~= line);
    } else {
        lemma_typed_binding_lines_push(es, e, i + 1);
        assert(all[i] == es[i]);
        let more = typed_binding_lines(es, i + 1);
        let a = typed_binding_text(es[i]);
        lemma_joined(seq!['\n'], more, line);
        lemma_joined(a, seq!['\n'] + more, line);
        lemma_joined(seq![' ', ' '], a + (seq!['\n'] + more), line);
    }
}

/// Each use of a gadget has a line.
pub proof fn law_typed_binding_lines_written(es: Seq<TypedBindingView>, e: TypedBindingView)
    ensures
        typed_binding_lines(Seq::empty(), 0) == ""@,
        typed_binding_lines(es.push(e), 0) == typed_binding_lines(es, 0) + "  "@
            + typed_binding_text(e) + "\n"@,
{
    reveal_strlit("");
    reveal_strlit("  ");
    reveal_strlit("\n");
    assert("\n"@ =~= seq!['\n']);
    assert("  "@ =~= seq![' ', ' ']);
    assert(typed_binding_lines(Seq::empty(), 0) =~= ""@);
    lemma_typed_binding_lines_push(es, e, 0);
    let a = typed_binding_lines(es, 0);
    let t = typed_binding_text(e);
    assert(a + (seq![' ', ' '] + (t + seq!['\n'])) =~= a + "  "@ + t + "\n"@);
}

/// A port is its kind, its name if it has one, its type and its number of words.
pub proof fn law_port_written(p: TypedPortView)
    ensures
        port_text(p) == (match p.kind {
            PortKind::Data => "data"@,
            PortKind::Aux => "aux"@,
            PortKind::Rng => "rng"@,
        }) + (if p.name.len() == 0 {
            ""@
        } else {
            ":"@ + quoted(p.name)
        }) + " T"@ + dec(p.ty.0 as nat) + ":"@ + dec(p.count as nat),
{
    reveal_strlit("");
    reveal_strlit(":");
    reveal_strlit(" T");
    assert(":"@ =~= seq![':']);
    assert(" T"@ =~= seq![' ', 'T']);
    let k = kind_text(p.kind);
    let n: Seq<char> = if p.name.len() == 0 {
        ""@
    } else {
        ":"@ + quoted(p.name)
    };
    let t = dec(p.ty.0 as nat);
    let c = dec(p.count as nat);
    assert(crate::text::typed_regions::port_name_text(p.name) =~= n);
    assert(mark_text('T', p.ty.0) =~= " T"@ + t);
    assert(port_text(p) =~= k + n + " T"@ + t + ":"@ + c);
}

/// The ports of a gadget stand behind its name.
pub proof fn law_stub_written(s: StubView)
    ensures
        stub_text(s) == "spec "@ + quoted(s.name) + port_items(s.ports, 0),
{
    reveal_strlit("spec ");
    reveal_strlit("spec");
    assert("spec "@ =~= "spec"@ + seq![' ']);
    let n = quoted(s.name);
    let p = port_items(s.ports, 0);
    assert(stub_text(s) =~= "spec "@ + n + p);
}

proof fn lemma_port_items_push(es: Seq<TypedPortView>, e: TypedPortView, i: int)
    requires
        0 <= i <= es.len(),
    ensures
        port_items(es.push(e), i) == port_items(es, i) + (seq![' '] + (port_text(e))),
    decreases es.len() - i,
{
    let all = es.push(e);
    let line = seq![' '] + (port_text(e));
    if i == es.len() {
        assert(port_items(all, i + 1) =~= Seq::empty());
        assert(all[i] == e);
        assert(port_text(e) + port_items(all, i + 1) =~= port_text(e));
        assert(port_items(es, i) + line =~= line);
    } else {
        lemma_port_items_push(es, e, i + 1);
        assert(all[i] == es[i]);
        let more = port_items(es, i + 1);
        let a = port_text(es[i]);
        lemma_joined(a, more, line);
        lemma_joined(seq![' '], a + more, line);
    }
}

/// Ports stand behind blanks.
pub proof fn law_ports_written(es: Seq<TypedPortView>, e: TypedPortView)
    ensures
        port_items(Seq::empty(), 0) == ""@,
        port_items(es.push(e), 0) == port_items(es, 0) + " "@ + port_text(e),
{
    reveal_strlit("");
    reveal_strlit(" ");
    assert(" "@ =~= seq![' ']);
    assert(port_items(Seq::empty(), 0) =~= ""@);
    lemma_port_items_push(es, e, 0);
    let a = port_items(es, 0);
    let t = port_text(e);
    assert(a + (seq![' '] + (t)) =~= a + " "@ + t);
}

proof fn lemma_stub_lines_push(es: Seq<StubView>, e: StubView, i: int)
    requires
        0 <= i <= es.len(),
    ensures
        stub_lines(es.push(e), i) == stub_lines(es, i) + (seq![' ', ' '] + (stub_text(e)
            + seq!['\n'])),
    decreases es.len() - i,
{
    let all = es.push(e);
    let line = seq![' ', ' '] + (stub_text(e) + seq!['\n']);
    if i == es.len() {
        assert(stub_lines(all, i + 1) =~= Seq::empty());
        assert(all[i] == e);
        assert(seq!['\n'] + stub_lines(all, i + 1) =~= seq!['\n']);
        assert(stub_lines(es, i) + line =~= line);
    } else {
        lemma_stub_lines_push(es, e, i + 1);
        assert(all[i] == es[i]);
        let more = stub_lines(es, i + 1);
        let a = stub_text(es[i]);
        lemma_joined(seq!['\n'], more, line);
        lemma_joined(a, seq!['\n'] + more, line);
        lemma_joined(seq![' ', ' '], a + (seq!['\n'] + more), line);
    }
}

/// Each gadget has a line.
pub proof fn law_stub_lines_written(es: Seq<StubView>, e: StubView)
    ensures
        stub_lines(Seq::empty(), 0) == ""@,
        stub_lines(es.push(e), 0) == stub_lines(es, 0) + "  "@ + stub_text(e) + "\n"@,
{
    reveal_strlit("");
    reveal_strlit("  ");
    reveal_strlit("\n");
    assert("\n"@ =~= seq!['\n']);
    assert("  "@ =~= seq![' ', ' ']);
    assert(stub_lines(Seq::empty(), 0) =~= ""@);
    lemma_stub_lines_push(es, e, 0);
    let a = stub_lines(es, 0);
    let t = stub_text(e);
    assert(a + (seq![' ', ' '] + (t + seq!['\n'])) =~= a + "  "@ + t + "\n"@);
}

/// The section of regions.
pub proof fn law_typed_region_section_written(es: Seq<TypedEntryView>)
    ensures
        typed_regions_text(es) == "typed_regions {\n"@ + typed_entry_lines(es, 0) + "}\n"@,
{
    reveal_strlit("typed_regions {\n");
    reveal_strlit("typed_regions");
    reveal_strlit("}\n");
    assert("typed_regions {\n"@ =~= "typed_regions"@ + seq![' ', '{', '\n']);
    assert("}\n"@ =~= seq!['}', '\n']);
    let t = typed_entry_lines(es, 0);
    assert(typed_regions_text(es) =~= "typed_regions {\n"@ + t + "}\n"@);
}

/// The section of gadgets.
pub proof fn law_typed_gadget_section_written(es: Seq<TypedBindingView>)
    ensures
        typed_gadgets_text(es) == "typed_gadgets {\n"@ + typed_binding_lines(es, 0) + "}\n"@,
{
    reveal_strlit("typed_gadgets {\n");
    reveal_strlit("typed_gadgets");
    reveal_strlit("}\n");
    assert("typed_gadgets {\n"@ =~= "typed_gadgets"@ + seq![' ', '{', '\n']);
    assert("}\n"@ =~= seq!['}', '\n']);
    let t = typed_binding_lines(es, 0);
    assert(typed_gadgets_text(es) =~= "typed_gadgets {\n"@ + t + "}\n"@);
}

/// The section of gadget ports.
pub proof fn law_typed_specs_section_written(es: Seq<StubView>)
    ensures
        typed_gadget_specs_text(es) == "typed_gadget_specs {\n"@ + stub_lines(es, 0) + "}\n"@,
{
    reveal_strlit("typed_gadget_specs {\n");
    reveal_strlit("typed_gadget_specs");
    reveal_strlit("}\n");
    assert("typed_gadget_specs {\n"@ =~= "typed_gadget_specs"@ + seq![' ', '{', '\n']);
    assert("}\n"@ =~= seq!['}', '\n']);
    let t = stub_lines(es, 0);
    assert(typed_gadget_specs_text(es) =~= "typed_gadget_specs {\n"@ + t + "}\n"@);
}

// ---------------------------------------------------------------------------
// Reading
// ---------------------------------------------------------------------------

/// The regions of an entry may be written in any order and more than once; there
/// has to be one.
pub proof fn law_regions_read(l: LexView, r: RegionId)
    ensures
        match get_list(l, false, '{', '}') {
            Err(e) => get_ids(l) == Err::<(Seq<RegionId>, LexView), ErrorView>(e),
            Ok((ids, m)) => if ids.len() == 0 {
                get_ids(l) == Err::<(Seq<RegionId>, LexView), ErrorView>(ErrorView::EmptyRegionSet)
            } else {
                match get_ids(l) {
                    Ok((got, n)) => n == m && (got.contains(r) <==> ids.contains(r.0)) && ascending(
                        got,
                    ),
                    Err(_) => false,
                }
            },
        },
{
    if let Ok((ids, m)) = get_list(l, false, '{', '}') {
        let all = numbered_regions(ids);
        law_region_set(all, r);
        if ids.contains(r.0) {
            let k = choose|k: int| 0 <= k < ids.len() && ids[k] == r.0;
            assert(all[k] == r);
        }
        if all.contains(r) {
            let k = choose|k: int| 0 <= k < all.len() && all[k] == r;
            assert(ids[k] == r.0);
        }
    }
}

/// A section of regions or of gadgets may stand once.
pub proof fn law_section_once(l: LexView, l1: LexView, so_far: SectionsView)
    requires
        l.skipped().rest.len() > 0,
    ensures
        get_ident(l.skipped()) == Ok::<(Seq<char>, LexView), ErrorView>(("regions"@, l1))
            && so_far.regions is Some ==> get_sections(l, so_far) == Err::<SectionsView, ErrorView>(
            ErrorView::DuplicateSection("regions"@),
        ),
        get_ident(l.skipped()) == Ok::<(Seq<char>, LexView), ErrorView>(("gadgets"@, l1))
            && so_far.bindings is Some ==> get_sections(l, so_far) == Err::<
            SectionsView,
            ErrorView,
        >(ErrorView::DuplicateSection("gadgets"@)),
{
    reveal_strlit("regions");
    reveal_strlit("gadgets");
    reveal_strlit("begin_block");
    assert("regions"@[0] == 'r' && "gadgets"@[0] == 'g' && "begin_block"@[0] == 'b');
    reveal_with_fuel(get_sections, 2);
}

} // verus!
