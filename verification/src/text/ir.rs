//! A typed program with its types as text, and that reading gives back what
//! was written.
//!
//! ```text
//! volar-ir v1
//! type 0 prim bit
//! type 1 prim u8
//! oracle "foo" params=[0] results=[1]
//! begin_block 0
//! params [0]
//! v1 = const 0x0:0xff ty=1
//! jmp return args=[v1]
//! end_block
//! ```

use vstd::prelude::*;

use crate::common::{
    action_views, oracle_views, rng_views, type_views, ActionDecl, CallDeclView, IrType, IrTypeView,
    OracleDecl, RngDecl, RngDeclView, TypeTable,
};
use crate::fmt::dec;
use crate::ir::{block_views, IRBlock, IRBlockView, IRBlocks, IRBlocksView};
use crate::text::error::{ErrorView, ParseError};
use crate::text::fields::{
    lemma_blank_ends, lemma_field_blank, lemma_spaced, lemma_spaced_number, lemma_values_shrink,
    spaced,
};
use crate::text::ir_doc::{
    block_lines, block_numbered, block_text, block_writable, call_decl_text, call_lines,
    get_block, get_call_decl, get_ir_type, get_rng_decl, ir_type_text, ir_type_writable,
    lemma_block, lemma_block_shrinks, lemma_call_decl, lemma_decls_shrink, lemma_ir_type,
    lemma_ir_type_shrinks, lemma_line_words, lemma_rng_decl, lemma_type_words, parse_ir_block,
    parse_ir_type, put_actions, put_blocks, put_oracles, put_rngs, read_call_decl, read_rng_decl,
    rng_decl_text, rng_lines, sideless, type_lines,
};
use crate::text::lexer::{
    get_ident, get_u32, group_shrinks, is_word, lemma_ident_shrinks, line_len, LexView, Lexer,
    Parsed,
};
use crate::text::pieces::{
    at_blank, at_token, is_name, lemma_at_token, lemma_joined, lemma_past_blank, lemma_word,
};
use crate::text::traits::{
    check_header, header_error, header_of, is_space, past_header, trim, ParseText, WriteText,
};

verus! {

/// A typed program with its types.
#[derive(PartialEq, Eq, Debug)]
pub struct SavedIrBlocks {
    pub types: TypeTable,
    pub blocks: IRBlocks<()>,
}

/// What a [`SavedIrBlocks`] denotes.
#[verifier::ext_equal]
pub struct SavedIrView {
    pub types: Seq<IrTypeView>,
    pub blocks: IRBlocksView,
}

impl View for SavedIrBlocks {
    type V = SavedIrView;

    open spec fn view(&self) -> SavedIrView {
        SavedIrView { types: self.types@, blocks: self.blocks@ }
    }
}

/// What has been read of a program.
#[verifier::ext_equal]
pub struct DocView {
    pub types: Seq<IrTypeView>,
    pub oracles: Seq<CallDeclView>,
    pub actions: Seq<CallDeclView>,
    pub rngs: Seq<RngDeclView>,
    pub blocks: Seq<IRBlockView>,
}

impl DocView {
    /// Nothing.
    pub open spec fn empty() -> DocView {
        DocView {
            types: Seq::empty(),
            oracles: Seq::empty(),
            actions: Seq::empty(),
            rngs: Seq::empty(),
            blocks: Seq::empty(),
        }
    }

    /// The program.
    pub open spec fn program(self) -> SavedIrView {
        SavedIrView {
            types: self.types,
            blocks: IRBlocksView {
                oracles: self.oracles,
                actions: self.actions,
                rngs: self.rngs,
                blocks: self.blocks,
                pre_init: Seq::empty(),
            },
        }
    }
}

/// The line or block behind the word `kw`.
pub open spec fn get_entry(kw: Seq<char>, l: LexView, d: DocView) -> Parsed<DocView> {
    if kw == "type"@ {
        match get_u32(l) {
            Err(e) => Err(e),
            Ok((_, l)) => match get_ident(l) {
                Err(e) => Err(e),
                Ok((word, l)) => match get_ir_type(word, l) {
                    Err(e) => Err(e),
                    Ok((t, l)) => Ok((DocView { types: d.types.push(t), ..d }, l)),
                },
            },
        }
    } else if kw == "oracle"@ {
        match get_call_decl(l) {
            Err(e) => Err(e),
            Ok((o, l)) => Ok((DocView { oracles: d.oracles.push(o), ..d }, l)),
        }
    } else if kw == "action"@ {
        match get_call_decl(l) {
            Err(e) => Err(e),
            Ok((a, l)) => Ok((DocView { actions: d.actions.push(a), ..d }, l)),
        }
    } else if kw == "rng"@ {
        match get_rng_decl(l) {
            Err(e) => Err(e),
            Ok((r, l)) => Ok((DocView { rngs: d.rngs.push(r), ..d }, l)),
        }
    } else if kw == "begin_block"@ {
        match get_u32(l) {
            Err(e) => Err(e),
            Ok((_, l)) => match get_block(l) {
                Err(e) => Err(e),
                Ok((b, l)) => Ok((DocView { blocks: d.blocks.push(b), ..d }, l)),
            },
        }
    } else {
        Err(ErrorView::UnknownDirective(kw))
    }
}

pub proof fn lemma_entry_shrinks(kw: Seq<char>, l: LexView, d: DocView)
    ensures
        get_entry(kw, l, d) matches Ok((_, m)) ==> m.rest.len() < l.rest.len(),
{
    lemma_decls_shrink(l);
    lemma_values_shrink(l);
    match get_u32(l) {
        Err(_) => {},
        Ok((_, m)) => {
            lemma_block_shrinks(m);
            lemma_ident_shrinks(m);
            match get_ident(m) {
                Err(_) => {},
                Ok((word, m)) => {
                    lemma_ir_type_shrinks(word, m);
                },
            }
        },
    }
}

/// The lines and blocks of a program.
pub open spec fn get_doc(l: LexView, d: DocView) -> Result<DocView, ErrorView>
    decreases l.rest.len(),
{
    let l = l.skipped();
    if l.rest.len() == 0 {
        Ok(d)
    } else {
        match get_ident(l) {
            Err(e) => Err(e),
            Ok((kw, l1)) => match get_entry(kw, l1, d) {
                Err(e) => Err(e),
                Ok((d, l2)) => {
                    proof {
                        broadcast use group_shrinks;

                        lemma_entry_shrinks(kw, l1, d);
                    }
                    get_doc(l2, d)
                },
            },
        }
    }
}

/// What reading the text `s` gives: a version line, then lines and blocks.
pub open spec fn get_ir(s: Seq<char>) -> Result<SavedIrView, ErrorView> {
    match header_error(header_of(s), "volar-ir v1"@, seq!["volar-ir v"@]) {
        Some(e) => Err(e),
        None => match get_doc(past_header(s), DocView::empty()) {
            Err(e) => Err(e),
            Ok(d) => Ok(d.program()),
        },
    }
}

/// A program as text. Initial storage is not written.
pub open spec fn ir_text(p: SavedIrView) -> Seq<char> {
    "volar-ir v1"@ + (seq!['\n'] + (type_lines(p.types, 0) + (call_lines(
        "oracle"@,
        p.blocks.oracles,
        0,
    ) + (call_lines("action"@, p.blocks.actions, 0) + (rng_lines(p.blocks.rngs, 0) + block_lines(
        p.blocks.blocks,
        0,
    ))))))
}

/// Whether a program can be read back: see the parts; there is no initial
/// storage, and blocks and types can be numbered.
pub open spec fn ir_writable(p: SavedIrView) -> bool {
    &&& forall|i: int| 0 <= i < p.types.len() ==> ir_type_writable(#[trigger] p.types[i])
    &&& forall|i: int|
        0 <= i < p.blocks.blocks.len() ==> block_writable(#[trigger] p.blocks.blocks[i])
    &&& p.types.len() <= 0x1_0000_0000
    &&& p.blocks.blocks.len() <= 0x1_0000_0000
    &&& p.blocks.pre_init.len() == 0
}

impl WriteText for SavedIrBlocks {
    open spec fn can_write(&self) -> bool {
        forall|i: int|
            0 <= i < self@.blocks.blocks.len() ==> block_numbered(
                #[trigger] self@.blocks.blocks[i],
            )
    }

    open spec fn text(&self) -> Seq<char> {
        ir_text(self@)
    }

    fn write_text(&self, w: &mut String) {
        let ghost z = w@;
        w.push_str("volar-ir v1");
        w.push('\n');
        self.types.write_text(w);
        put_oracles(w, &self.blocks.oracles);
        put_actions(w, &self.blocks.actions);
        put_rngs(w, &self.blocks.rngs);
        assert(self@.blocks.blocks == block_views(self.blocks.blocks@));
        put_blocks(w, &self.blocks.blocks);
        proof {
            let h = "volar-ir v1"@;
            let n = seq!['\n'];
            let t = type_lines(self@.types, 0);
            let o = call_lines("oracle"@, self@.blocks.oracles, 0);
            let a = call_lines("action"@, self@.blocks.actions, 0);
            let r = rng_lines(self@.blocks.rngs, 0);
            let b = block_lines(self@.blocks.blocks, 0);
            assert(w@ =~= z + h + n + t + o + a + r + b);
            lemma_joined(z + h + n + t + o + a, r, b);
            lemma_joined(z + h + n + t + o, a, r + b);
            lemma_joined(z + h + n + t, o, a + (r + b));
            lemma_joined(z + h + n, t, o + (a + (r + b)));
            lemma_joined(z + h, n, t + (o + (a + (r + b))));
            lemma_joined(z, h, n + (t + (o + (a + (r + b)))));
        }
    }
}

/// Whether no statement of a program belongs to a side.
pub open spec fn program_sideless(blocks: Seq<IRBlock<()>>) -> bool {
    forall|i: int| 0 <= i < blocks.len() ==> sideless((#[trigger] blocks[i]).stmts@)
}

impl ParseText for SavedIrBlocks {
    open spec fn parses(s: Seq<char>, r: Result<Self, ParseError>) -> bool {
        match get_ir(s) {
            Ok(p) => r matches Ok(x) && x@ == p && program_sideless(x.blocks.blocks@),
            Err(e) => r matches Err(x) && x@ == e,
        }
    }

    fn parse_text(s: &str) -> (r: Result<Self, ParseError>) {
        parse_saved_ir_blocks(s)
    }
}

/// Read a program.
#[verifier::rlimit(40)]
pub fn parse_saved_ir_blocks(s: &str) -> (r: Result<SavedIrBlocks, ParseError>)
    ensures
        match get_ir(s@) {
            Ok(p) => r matches Ok(x) && x@ == p && program_sideless(x.blocks.blocks@),
            Err(e) => r matches Err(x) && x@ == e,
        },
{
    let mut lex: Lexer = Lexer::new(s);
    let line: String = lex.read_to_newline();
    let header: String = trim(&line);
    let others: Vec<&str> = vec!["volar-ir v"];
    assert(others@.map_values(|t: &str| t@) =~= seq!["volar-ir v"@]);
    match check_header(&header, "volar-ir v1", &others) {
        Ok(_) => {},
        Err(e) => {
            return Err(e);
        },
    }
    let mut types: Vec<IrType> = Vec::new();
    let mut oracles: Vec<OracleDecl> = Vec::new();
    let mut actions: Vec<ActionDecl> = Vec::new();
    let mut rngs: Vec<RngDecl> = Vec::new();
    let mut blocks: Vec<IRBlock<()>> = Vec::new();
    let ghost whole = get_doc(lex@, DocView::empty());
    proof {
        assert(type_views(types@) =~= Seq::empty());
        assert(oracle_views(oracles@) =~= Seq::empty());
        assert(action_views(actions@) =~= Seq::empty());
        assert(rng_views(rngs@) =~= Seq::empty());
        assert(block_views(blocks@) =~= Seq::empty());
    }
    while !lex.is_eof()
        invariant
            header_error(header_of(s@), "volar-ir v1"@, seq!["volar-ir v"@]) is None,
            whole == get_doc(past_header(s@), DocView::empty()),
            whole == get_doc(lex@, DocView {
                types: type_views(types@),
                oracles: oracle_views(oracles@),
                actions: action_views(actions@),
                rngs: rng_views(rngs@),
                blocks: block_views(blocks@),
            }),
            program_sideless(blocks@),
        ensures
            lex@.rest.len() == 0,
        decreases lex@.rest.len(),
    {
        broadcast use group_shrinks;

        let ghost d = DocView {
            types: type_views(types@),
            oracles: oracle_views(oracles@),
            actions: action_views(actions@),
            rngs: rng_views(rngs@),
            blocks: block_views(blocks@),
        };
        proof {
            lemma_at_token(lex@);
        }
        let kw: String = match lex.read_ident() {
            Ok(kw) => kw,
            Err(e) => {
                return Err(e);
            },
        };
        proof {
            lemma_entry_shrinks(kw@, lex@, d);
        }
        if is_word(&kw, "type") {
            match lex.read_u32() {
                Ok(_) => {},
                Err(e) => {
                    return Err(e);
                },
            }
            let word: String = match lex.read_ident() {
                Ok(word) => word,
                Err(e) => {
                    return Err(e);
                },
            };
            match parse_ir_type(&word, &mut lex) {
                Ok(t) => {
                    let ghost before = types@;
                    let ghost v = t@;
                    types.push(t);
                    assert(type_views(types@) =~= type_views(before).push(v));
                },
                Err(e) => {
                    return Err(e);
                },
            }
        } else if is_word(&kw, "oracle") {
            match read_call_decl(&mut lex) {
                Ok(o) => {
                    let ghost before = oracles@;
                    let ghost v = o@;
                    oracles.push(o);
                    assert(oracle_views(oracles@) =~= oracle_views(before).push(v));
                },
                Err(e) => {
                    return Err(e);
                },
            }
        } else if is_word(&kw, "action") {
            match read_call_decl(&mut lex) {
                Ok(o) => {
                    let ghost before = actions@;
                    let ghost v = o@;
                    actions.push(
                        ActionDecl { name: o.name, params: o.params, results: o.results },
                    );
                    assert(action_views(actions@) =~= action_views(before).push(v));
                },
                Err(e) => {
                    return Err(e);
                },
            }
        } else if is_word(&kw, "rng") {
            match read_rng_decl(&mut lex) {
                Ok(x) => {
                    let ghost before = rngs@;
                    let ghost v = x@;
                    rngs.push(x);
                    assert(rng_views(rngs@) =~= rng_views(before).push(v));
                },
                Err(e) => {
                    return Err(e);
                },
            }
        } else if is_word(&kw, "begin_block") {
            match lex.read_u32() {
                Ok(_) => {},
                Err(e) => {
                    return Err(e);
                },
            }
            match parse_ir_block(&mut lex) {
                Ok(b) => {
                    let ghost before = blocks@;
                    let ghost v = b@;
                    blocks.push(b);
                    assert(block_views(blocks@) =~= block_views(before).push(v));
                },
                Err(e) => {
                    return Err(e);
                },
            }
        } else {
            return Err(ParseError::UnknownDirective(kw));
        }
    }
    let p = SavedIrBlocks {
        types: TypeTable(types),
        blocks: IRBlocks { oracles, actions, rngs, blocks, pre_init: Vec::new() },
    };
    assert(p@.blocks.pre_init =~= Seq::empty());
    Ok(p)
}

// ---------------------------------------------------------------------------
// Reading back
// ---------------------------------------------------------------------------

/// An entry is read by its word.
proof fn lemma_entry(l: LexView, word: Seq<char>, tail: Seq<char>, d: DocView) -> (m: LexView)
    requires
        l.skipped().rest == word + tail,
        is_name(word),
        at_blank(tail),
    ensures
        m.rest == tail,
        get_doc(l, d) == (match get_entry(word, m, d) {
            Err(e) => Err(e),
            Ok((d2, m2)) => get_doc(m2, d2),
        }),
{
    let s = l.skipped();
    assert(s.rest[0] == word[0]);
    lemma_at_token(s);
    lemma_blank_ends(tail);
    lemma_word(s, word, tail);
    get_ident(s)->Ok_0.1
}

/// What is left behind a line.
proof fn lemma_next(m: LexView, more: Seq<char>)
    requires
        m.rest == seq!['\n'] + more,
        at_token(more),
    ensures
        m.skipped().rest == more,
{
    lemma_past_blank(m, '\n', more);
}

proof fn lemma_blocks_start(bs: Seq<IRBlockView>, i: int)
    ensures
        at_token(block_lines(bs, i)),
{
    lemma_line_words();
    if i < bs.len() {
        assert(block_lines(bs, i)[0] == "begin_block"@[0]);
    }
}

proof fn lemma_doc_blocks(l: LexView, d: DocView, bs: Seq<IRBlockView>, i: int)
    requires
        0 <= i <= bs.len() <= 0x1_0000_0000,
        forall|j: int| 0 <= j < bs.len() ==> block_writable(#[trigger] bs[j]),
        d.blocks == bs.take(i),
        l.skipped().rest == block_lines(bs, i),
    ensures
        get_doc(l, d) == Ok::<DocView, ErrorView>(DocView { blocks: bs, ..d }),
    decreases bs.len() - i,
{
    lemma_line_words();
    if i == bs.len() {
        assert(bs.take(i) =~= bs);
    } else {
        let more = block_lines(bs, i + 1);
        let text = block_text(i as nat, bs[i]);
        let tail = text + more;
        assert(at_blank(tail)) by {
            assert(text[0] == ' ');
            assert(tail[0] == ' ');
        }
        let m = lemma_entry(l, "begin_block"@, tail, d);
        lemma_block(m, i as nat, bs[i], more);
        let m1 = get_u32(m)->Ok_0.1;
        let m2 = get_block(m1)->Ok_0.1;
        lemma_blocks_start(bs, i + 1);
        lemma_next(m2, more);
        let d2 = DocView { blocks: d.blocks.push(bs[i]), ..d };
        assert(bs.take(i + 1) =~= bs.take(i).push(bs[i]));
        lemma_doc_blocks(m2, d2, bs, i + 1);
    }
}

proof fn lemma_rngs_start(rs: Seq<RngDeclView>, i: int, k: Seq<char>)
    requires
        at_token(k),
    ensures
        at_token(rng_lines(rs, i) + k),
{
    lemma_line_words();
    if i < rs.len() {
        assert(rng_lines(rs, i)[0] == "rng"@[0]);
        assert((rng_lines(rs, i) + k)[0] == "rng"@[0]);
    } else {
        assert(rng_lines(rs, i) + k =~= k);
    }
}

proof fn lemma_doc_rngs(
    l: LexView,
    d: DocView,
    rs: Seq<RngDeclView>,
    bs: Seq<IRBlockView>,
    i: int,
)
    requires
        0 <= i <= rs.len(),
        bs.len() <= 0x1_0000_0000,
        forall|j: int| 0 <= j < bs.len() ==> block_writable(#[trigger] bs[j]),
        d.rngs == rs.take(i),
        d.blocks == Seq::<IRBlockView>::empty(),
        l.skipped().rest == rng_lines(rs, i) + block_lines(bs, 0),
    ensures
        get_doc(l, d) == Ok::<DocView, ErrorView>(DocView { rngs: rs, blocks: bs, ..d }),
    decreases rs.len() - i,
{
    lemma_line_words();
    let k = block_lines(bs, 0);
    if i == rs.len() {
        assert(rs.take(i) =~= rs);
        assert(bs.take(0) =~= Seq::empty());
        assert(rng_lines(rs, i) + k =~= k);
        lemma_doc_blocks(l, d, bs, 0);
    } else {
        let lines = rng_lines(rs, i + 1);
        let more = lines + k;
        let text = rng_decl_text(rs[i]);
        let nl = seq!['\n'];
        let tail = text + (nl + more);
        lemma_joined("rng"@, text + (nl + lines), k);
        lemma_joined(text, nl + lines, k);
        lemma_joined(nl, lines, k);
        assert(at_blank(tail)) by {
            assert(text[0] == ' ');
            assert(tail[0] == ' ');
        }
        let m = lemma_entry(l, "rng"@, tail, d);
        assert((nl + more)[0] == '\n');
        lemma_rng_decl(m, rs[i], nl + more);
        let m2 = get_rng_decl(m)->Ok_0.1;
        lemma_blocks_start(bs, 0);
        lemma_rngs_start(rs, i + 1, k);
        lemma_next(m2, more);
        let d2 = DocView { rngs: d.rngs.push(rs[i]), ..d };
        assert(rs.take(i + 1) =~= rs.take(i).push(rs[i]));
        lemma_doc_rngs(m2, d2, rs, bs, i + 1);
    }
}

proof fn lemma_calls_start(word: Seq<char>, ds: Seq<CallDeclView>, i: int, k: Seq<char>)
    requires
        at_token(k),
        is_name(word),
    ensures
        at_token(call_lines(word, ds, i) + k),
{
    if i < ds.len() {
        assert(call_lines(word, ds, i)[0] == word[0]);
        assert((call_lines(word, ds, i) + k)[0] == word[0]);
    } else {
        assert(call_lines(word, ds, i) + k =~= k);
    }
}

/// A declared function is read by its word.
proof fn lemma_doc_call(
    l: LexView,
    word: Seq<char>,
    d: DocView,
    ds: Seq<CallDeclView>,
    i: int,
    k: Seq<char>,
) -> (m: LexView)
    requires
        0 <= i < ds.len(),
        word == "oracle"@ || word == "action"@,
        at_token(k),
        l.skipped().rest == call_lines(word, ds, i) + k,
    ensures
        m.skipped().rest == call_lines(word, ds, i + 1) + k,
        get_doc(l, d) == get_doc(
            m,
            if word == "oracle"@ {
                DocView { oracles: d.oracles.push(ds[i]), ..d }
            } else {
                DocView { actions: d.actions.push(ds[i]), ..d }
            },
        ),
{
    lemma_line_words();
    let lines = call_lines(word, ds, i + 1);
    let more = lines + k;
    let text = call_decl_text(ds[i]);
    let nl = seq!['\n'];
    let tail = text + (nl + more);
    lemma_joined(word, text + (nl + lines), k);
    lemma_joined(text, nl + lines, k);
    lemma_joined(nl, lines, k);
    assert(at_blank(tail)) by {
        assert(text[0] == ' ');
        assert(tail[0] == ' ');
    }
    let m = lemma_entry(l, word, tail, d);
    assert((nl + more)[0] == '\n');
    lemma_call_decl(m, ds[i], nl + more);
    let m2 = get_call_decl(m)->Ok_0.1;
    lemma_calls_start(word, ds, i + 1, k);
    lemma_next(m2, more);
    m2
}

proof fn lemma_doc_actions(
    l: LexView,
    d: DocView,
    acts: Seq<CallDeclView>,
    rs: Seq<RngDeclView>,
    bs: Seq<IRBlockView>,
    i: int,
)
    requires
        0 <= i <= acts.len(),
        bs.len() <= 0x1_0000_0000,
        forall|j: int| 0 <= j < bs.len() ==> block_writable(#[trigger] bs[j]),
        d.actions == acts.take(i),
        d.rngs == Seq::<RngDeclView>::empty(),
        d.blocks == Seq::<IRBlockView>::empty(),
        l.skipped().rest == call_lines("action"@, acts, i) + (rng_lines(rs, 0) + block_lines(
            bs,
            0,
        )),
    ensures
        get_doc(l, d) == Ok::<DocView, ErrorView>(
            DocView { actions: acts, rngs: rs, blocks: bs, ..d },
        ),
    decreases acts.len() - i,
{
    let k = rng_lines(rs, 0) + block_lines(bs, 0);
    lemma_line_words();
    lemma_blocks_start(bs, 0);
    lemma_rngs_start(rs, 0, block_lines(bs, 0));
    if i == acts.len() {
        assert(acts.take(i) =~= acts);
        assert(rs.take(0) =~= Seq::empty());
        assert(call_lines("action"@, acts, i) + k =~= k);
        lemma_doc_rngs(l, d, rs, bs, 0);
    } else {
        let m = lemma_doc_call(l, "action"@, d, acts, i, k);
        assert(acts.take(i + 1) =~= acts.take(i).push(acts[i]));
        lemma_doc_actions(
            m,
            DocView { actions: d.actions.push(acts[i]), ..d },
            acts,
            rs,
            bs,
            i + 1,
        );
    }
}

proof fn lemma_doc_oracles(l: LexView, d: DocView, p: IRBlocksView, i: int)
    requires
        0 <= i <= p.oracles.len(),
        p.blocks.len() <= 0x1_0000_0000,
        forall|j: int| 0 <= j < p.blocks.len() ==> block_writable(#[trigger] p.blocks[j]),
        d.oracles == p.oracles.take(i),
        d.actions == Seq::<CallDeclView>::empty(),
        d.rngs == Seq::<RngDeclView>::empty(),
        d.blocks == Seq::<IRBlockView>::empty(),
        l.skipped().rest == call_lines("oracle"@, p.oracles, i) + (call_lines(
            "action"@,
            p.actions,
            0,
        ) + (rng_lines(p.rngs, 0) + block_lines(p.blocks, 0))),
    ensures
        get_doc(l, d) == Ok::<DocView, ErrorView>(
            DocView {
                types: d.types,
                oracles: p.oracles,
                actions: p.actions,
                rngs: p.rngs,
                blocks: p.blocks,
            },
        ),
    decreases p.oracles.len() - i,
{
    let k1 = rng_lines(p.rngs, 0) + block_lines(p.blocks, 0);
    let k = call_lines("action"@, p.actions, 0) + k1;
    lemma_line_words();
    lemma_blocks_start(p.blocks, 0);
    lemma_rngs_start(p.rngs, 0, block_lines(p.blocks, 0));
    lemma_calls_start("action"@, p.actions, 0, k1);
    if i == p.oracles.len() {
        assert(p.oracles.take(i) =~= p.oracles);
        assert(p.actions.take(0) =~= Seq::empty());
        assert(call_lines("oracle"@, p.oracles, i) + k =~= k);
        lemma_doc_actions(l, d, p.actions, p.rngs, p.blocks, 0);
    } else {
        let m = lemma_doc_call(l, "oracle"@, d, p.oracles, i, k);
        assert(p.oracles.take(i + 1) =~= p.oracles.take(i).push(p.oracles[i]));
        lemma_doc_oracles(m, DocView { oracles: d.oracles.push(p.oracles[i]), ..d }, p, i + 1);
    }
}

/// A type of a table is read by its word.
proof fn lemma_doc_type(
    l: LexView,
    d: DocView,
    ts: Seq<IrTypeView>,
    i: int,
    k: Seq<char>,
) -> (m: LexView)
    requires
        0 <= i < ts.len() <= 0x1_0000_0000,
        ir_type_writable(ts[i]),
        at_token(k),
        l.skipped().rest == type_lines(ts, i) + k,
    ensures
        m.skipped().rest == type_lines(ts, i + 1) + k,
        get_doc(l, d) == get_doc(m, DocView { types: d.types.push(ts[i]), ..d }),
{
    lemma_line_words();
    let lines = type_lines(ts, i + 1);
    let more = lines + k;
    let number = spaced(dec(i as nat));
    let body = ir_type_text(ts[i]);
    let text = spaced(body);
    let nl = seq!['\n'];
    let k2 = nl + more;
    let k1 = text + k2;
    let tail = number + k1;
    lemma_joined("type"@, number + (text + (nl + lines)), k);
    lemma_joined(number, text + (nl + lines), k);
    lemma_joined(text, nl + lines, k);
    lemma_joined(nl, lines, k);
    lemma_field_blank(Seq::empty(), dec(i as nat), k1);
    lemma_field_blank(Seq::empty(), body, k2);
    let m = lemma_entry(l, "type"@, tail, d);
    lemma_blank_ends(k1);
    lemma_spaced_number(m, i as nat, u32::MAX as nat, k1);
    let m1 = get_u32(m)->Ok_0.1;
    assert(at_token(body + k2)) by {
        lemma_type_words();
        assert((body + k2)[0] == body[0]);
        match ts[i] {
            IrTypeView::Primitive(_) => {
                assert(body[0] == "prim"@[0]);
            },
            IrTypeView::Vec(_, _) => {
                assert(body[0] == "vec"@[0]);
            },
            IrTypeView::Tuple(_) => {
                assert(body[0] == "tuple"@[0]);
            },
            IrTypeView::Block { .. } => {
                assert(body[0] == "block"@[0]);
            },
            IrTypeView::Func { .. } => {
                assert(body[0] == "func"@[0]);
            },
        }
    }
    lemma_spaced(m1, body, k2);
    lemma_ir_type(m1, ts[i], k2, more);
    let m2 = get_ident(m1)->Ok_0;
    let m3 = get_ir_type(m2.0, m2.1)->Ok_0.1;
    assert(at_token(more)) by {
        if i + 1 < ts.len() {
            assert(lines[0] == "type"@[0]);
            assert(more[0] == "type"@[0]);
        } else {
            assert(more =~= k);
        }
    }
    lemma_next(m3, more);
    m3
}

#[verifier::rlimit(60)]
proof fn lemma_doc_types(l: LexView, d: DocView, p: SavedIrView, i: int)
    requires
        0 <= i <= p.types.len(),
        ir_writable(p),
        d == (DocView { types: p.types.take(i), ..DocView::empty() }),
        l.skipped().rest == type_lines(p.types, i) + (call_lines("oracle"@, p.blocks.oracles, 0) + (
        call_lines("action"@, p.blocks.actions, 0) + (rng_lines(p.blocks.rngs, 0) + block_lines(
            p.blocks.blocks,
            0,
        )))),
    ensures
        get_doc(l, d) == Ok::<DocView, ErrorView>(
            DocView {
                types: p.types,
                oracles: p.blocks.oracles,
                actions: p.blocks.actions,
                rngs: p.blocks.rngs,
                blocks: p.blocks.blocks,
            },
        ),
    decreases p.types.len() - i,
{
    let b = p.blocks;
    let k2 = rng_lines(b.rngs, 0) + block_lines(b.blocks, 0);
    let k1 = call_lines("action"@, b.actions, 0) + k2;
    let k = call_lines("oracle"@, b.oracles, 0) + k1;
    lemma_line_words();
    lemma_blocks_start(b.blocks, 0);
    lemma_rngs_start(b.rngs, 0, block_lines(b.blocks, 0));
    lemma_calls_start("action"@, b.actions, 0, k2);
    lemma_calls_start("oracle"@, b.oracles, 0, k1);
    if i == p.types.len() {
        assert(p.types.take(i) =~= p.types);
        assert(b.oracles.take(0) =~= Seq::empty());
        assert(type_lines(p.types, i) + k =~= k);
        lemma_doc_oracles(l, d, b, 0);
    } else {
        let m = lemma_doc_type(l, d, p.types, i, k);
        assert(p.types.take(i + 1) =~= p.types.take(i).push(p.types[i]));
        lemma_doc_types(m, DocView { types: d.types.push(p.types[i]), ..d }, p, i + 1);
    }
}

/// The first line of a text.
pub proof fn lemma_first_line(h: Seq<char>, k: Seq<char>)
    requires
        forall|i: int| 0 <= i < h.len() ==> #[trigger] h[i] != '\n',
    ensures
        line_len(h + (seq!['\n'] + k)) == h.len(),
    decreases h.len(),
{
    let t = h + (seq!['\n'] + k);
    if h.len() == 0 {
        assert(t[0] == '\n');
    } else {
        assert(t[0] == h[0]);
        assert(t.drop_first() =~= h.drop_first() + (seq!['\n'] + k));
        assert forall|i: int| 0 <= i < h.drop_first().len() implies #[trigger] h.drop_first()[i]
            != '\n' by {
            assert(h.drop_first()[i] == h[i + 1]);
        }
        lemma_first_line(h.drop_first(), k);
    }
}

/// A version line is read back.
pub proof fn lemma_header(k: Seq<char>)
    ensures
        header_of("volar-ir v1"@ + (seq!['\n'] + k)) == "volar-ir v1"@,
        past_header("volar-ir v1"@ + (seq!['\n'] + k)).rest == seq!['\n'] + k,
{
    reveal_strlit("volar-ir v1");
    let h = "volar-ir v1"@;
    let t = h + (seq!['\n'] + k);
    assert(h.len() == 11);
    assert(forall|i: int| 0 <= i < h.len() ==> #[trigger] h[i] != '\n');
    lemma_first_line(h, k);
    assert(t.take(11) =~= h);
    assert(t.skip(11) =~= seq!['\n'] + k);
    assert(!is_space(h[0]));
    assert(!is_space(h.last()));
}

/// What was written of a program is read back as the same program.
pub proof fn law_ir_round_trip(p: SavedIrView)
    requires
        ir_writable(p),
    ensures
        get_ir(ir_text(p)) == Ok::<SavedIrView, ErrorView>(p),
{
    let b = p.blocks;
    let k2 = rng_lines(b.rngs, 0) + block_lines(b.blocks, 0);
    let k1 = call_lines("action"@, b.actions, 0) + k2;
    let k0 = call_lines("oracle"@, b.oracles, 0) + k1;
    let k = type_lines(p.types, 0) + k0;
    lemma_header(k);
    let l = past_header(ir_text(p));
    lemma_line_words();
    lemma_blocks_start(b.blocks, 0);
    lemma_rngs_start(b.rngs, 0, block_lines(b.blocks, 0));
    lemma_calls_start("action"@, b.actions, 0, k2);
    lemma_calls_start("oracle"@, b.oracles, 0, k1);
    assert(at_token(k)) by {
        if p.types.len() > 0 {
            assert(type_lines(p.types, 0)[0] == "type"@[0]);
            assert(k[0] == "type"@[0]);
        } else {
            assert(k =~= k0);
        }
    }
    lemma_next(l, k);
    assert(p.types.take(0) =~= Seq::empty());
    lemma_doc_types(l, DocView::empty(), p, 0);
    assert(p.blocks.pre_init =~= Seq::empty());
}

} // verus!
