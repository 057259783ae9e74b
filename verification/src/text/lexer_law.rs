//! What tokens are, character by character.

use vstd::prelude::*;
use vstd::utf8::encode_scalar;

use crate::text::error::ErrorView;
use crate::text::lexer::{
    advanced_by, byte_count, byte_of, bytes_of, digit_value, get_byte, get_char, get_ident,
    get_items, get_key, get_number, get_quoted, get_str, get_string, get_u128, get_u32, get_u64,
    get_usize, get_var, get_word, has_hex_prefix, hex_len, in_word, is_blank, is_digit,
    is_hex_digit, item_stop, items_stop, key_stop, line_len, list_stop, number_len, number_stop,
    quoted_stop, starts_word, string_stop, try_char, try_comma, try_one_byte, try_word, value_of,
    var_stop, word_stop, LexView,
};
use crate::text::pieces::{
    at_token, lemma_at_token, lemma_char, lemma_past_blank, lemma_word, reads,
};

verus! {

// ---------------------------------------------------------------------------
// Characters
// ---------------------------------------------------------------------------

/// Which characters separate tokens, start words, stand in words and are digits.
pub proof fn law_characters(c: char)
    ensures
        is_blank(c) <==> " \t\r\n"@.contains(c),
        starts_word(c) <==> "abcdefghijklmnopqrstuvwxyzABCDEFGHIJKLMNOPQRSTUVWXYZ_"@.contains(c),
        in_word(c) <==> starts_word(c) || "0123456789-"@.contains(c),
        is_digit(c) <==> "0123456789"@.contains(c),
        is_hex_digit(c) <==> "0123456789abcdefABCDEF"@.contains(c),
{
    reveal_strlit(" \t\r\n");
    reveal_strlit("abcdefghijklmnopqrstuvwxyzABCDEFGHIJKLMNOPQRSTUVWXYZ_");
    reveal_strlit("0123456789-");
    reveal_strlit("0123456789");
    reveal_strlit("0123456789abcdefABCDEF");
    let n = c as u32 as int;
    let blanks = " \t\r\n"@;
    if is_blank(c) {
        if c == ' ' {
            assert(blanks[0] == c);
        } else if c == '\t' {
            assert(blanks[1] == c);
        } else if c == '\r' {
            assert(blanks[2] == c);
        } else {
            assert(blanks[3] == c);
        }
    }
    let letters = "abcdefghijklmnopqrstuvwxyzABCDEFGHIJKLMNOPQRSTUVWXYZ_"@;
    if starts_word(c) {
        if 'a' <= c && c <= 'z' {
            assert(letters[n - 97] == c);
        } else if 'A' <= c && c <= 'Z' {
            assert(letters[n - 65 + 26] == c);
        } else {
            assert(letters[52] == c);
        }
    }
    let digits = "0123456789"@;
    let more = "0123456789-"@;
    let hexes = "0123456789abcdefABCDEF"@;
    if is_digit(c) {
        assert(digits[n - 48] == c);
        assert(more[n - 48] == c);
        assert(hexes[n - 48] == c);
    }
    if c == '-' {
        assert(more[10] == c);
    }
    if 'a' <= c && c <= 'f' {
        assert(hexes[n - 97 + 10] == c);
    }
    if 'A' <= c && c <= 'F' {
        assert(hexes[n - 65 + 16] == c);
    }
}

/// The value of a digit is its place in the row of digits; letters count in
/// upper and in lower case.
pub proof fn law_digit_values(i: int)
    requires
        0 <= i < 16,
    ensures
        digit_value("0123456789abcdef"@[i]) == i,
        digit_value("0123456789ABCDEF"@[i]) == i,
{
    reveal_strlit("0123456789abcdef");
    reveal_strlit("0123456789ABCDEF");
}

/// The bytes of a character are those of its UTF-8 encoding.
pub proof fn law_character_bytes(c: char, i: int)
    ensures
        byte_count(c) == encode_scalar(c as u32).len(),
        0 <= i < byte_count(c) ==> byte_of(c, i as nat) == encode_scalar(c as u32)[i],
{
    broadcast use vstd::utf8::char_is_scalar;

    let n = c as u32;
    assert(n & 0x7f == n % 128 && n & 0x3f == n % 64 && (n >> 6) & 0x3f == n / 64 % 64 && (n >> 12)
        & 0x3f == n / 4096 % 64) by (bit_vector);
    assert(n < 0x80 ==> (n & 0x7f) as u8 == n) by (bit_vector);
    assert(n < 0x800 ==> (0xC0u8 | ((n >> 6) & 0x1F) as u8) == 0xc0 + n / 64) by (bit_vector);
    assert(n < 0x10000 ==> (0xE0u8 | ((n >> 12) & 0x0F) as u8) == 0xe0 + n / 4096) by (bit_vector);
    assert(n < 0x200000 ==> (0xF0u8 | ((n >> 18) & 0x7) as u8) == 0xf0 + n / 262144)
        by (bit_vector);
    assert((0x80u8 | (n & 0x3F) as u8) == 0x80 + n % 64) by (bit_vector);
    assert((0x80u8 | ((n >> 6) & 0x3F) as u8) == 0x80 + n / 64 % 64) by (bit_vector);
    assert((0x80u8 | ((n >> 12) & 0x3F) as u8) == 0x80 + n / 4096 % 64) by (bit_vector);
}

// ---------------------------------------------------------------------------
// Between tokens
// ---------------------------------------------------------------------------

proof fn lemma_rest_alone(l: LexView, m: LexView)
    requires
        l.rest == m.rest,
    ensures
        l.skipped().rest == m.skipped().rest,
    decreases l.rest.len(),
{
    if l.rest.len() > 0 {
        if is_blank(l.rest[0]) {
            lemma_rest_alone(l.advanced(), m.advanced());
        } else if l.rest[0] == ';' {
            let n = line_len(l.rest);
            crate::text::lexer::lemma_line_len(l.rest);
            let w = bytes_of(l.rest.take(n as int));
            lemma_rest_alone(l.along(n, w), m.along(n, w));
        }
    }
}

/// Blanks, tabs, returns and line ends before a token do not matter.
pub proof fn law_blanks_are_skipped(l: LexView, m: LexView, c: char)
    requires
        c == ' ' || c == '\t' || c == '\r' || c == '\n',
        l.rest == seq![c] + m.rest,
    ensures
        l.skipped().rest == m.skipped().rest,
{
    assert(l.rest[0] == c);
    assert(l.rest.drop_first() =~= m.rest);
    lemma_rest_alone(l.advanced(), m);
}

proof fn lemma_line_of(s: Seq<char>, t: Seq<char>)
    requires
        forall|i: int| 0 <= i < s.len() ==> s[i] != '\n',
        t.len() == 0 || t[0] == '\n',
    ensures
        line_len(s + t) == s.len(),
    decreases s.len(),
{
    if s.len() == 0 {
        assert(s + t =~= t);
    } else {
        assert((s + t)[0] == s[0]);
        assert((s + t).drop_first() =~= s.drop_first() + t);
        lemma_line_of(s.drop_first(), t);
    }
}

/// Neither does what stands between a semicolon and the end of its line, or of
/// the text.
pub proof fn law_comments_are_skipped(l: LexView, m: LexView, s: Seq<char>)
    requires
        forall|i: int| 0 <= i < s.len() ==> s[i] != '\n',
        l.rest == ";"@ + s + m.rest,
        m.rest.len() == 0 || m.rest[0] == '\n',
    ensures
        l.skipped().rest == m.skipped().rest,
{
    reveal_strlit(";");
    let line = ";"@ + s;
    assert forall|i: int| 0 <= i < line.len() implies line[i] != '\n' by {
        if i > 0 {
            assert(line[i] == s[i - 1]);
        }
    }
    lemma_line_of(line, m.rest);
    assert(l.rest[0] == ';');
    let n = line_len(l.rest);
    let w = bytes_of(l.rest.take(n as int));
    assert(l.rest.skip(n as int) =~= m.rest);
    lemma_rest_alone(l.along(n, w), m);
}

/// A line end leads to the first column of the next line; another blank to the
/// next column. Numbers of lines and columns stop at the largest one.
pub proof fn law_positions(l: LexView, c: char, t: Seq<char>)
    requires
        l.rest == seq![c] + t,
        at_token(t),
        c == ' ' || c == '\t' || c == '\r' || c == '\n',
    ensures
        l.skipped().rest == t,
        c == '\n' && l.line < u32::MAX ==> l.skipped().line == l.line + 1,
        c == '\n' && l.line == u32::MAX ==> l.skipped().line == u32::MAX,
        c == '\n' ==> l.skipped().col == 1,
        c != '\n' ==> l.skipped().line == l.line,
        c != '\n' && l.col < u32::MAX ==> l.skipped().col == l.col + 1,
        c != '\n' && l.col == u32::MAX ==> l.skipped().col == u32::MAX,
{
    lemma_past_blank(l, c, t);
    assert(l.rest[0] == c);
    assert(l.rest.drop_first() =~= t);
    lemma_at_token(l.advanced());
}

// ---------------------------------------------------------------------------
// Words
// ---------------------------------------------------------------------------

/// A word runs up to the first character that no word has.
pub proof fn law_word_read(l: LexView, w: Seq<char>, k: Seq<char>)
    requires
        l.skipped().rest == w + k,
        w.len() > 0,
        "abcdefghijklmnopqrstuvwxyzABCDEFGHIJKLMNOPQRSTUVWXYZ_"@.contains(w[0]),
        forall|i: int|
            0 <= i < w.len()
                ==> "abcdefghijklmnopqrstuvwxyzABCDEFGHIJKLMNOPQRSTUVWXYZ_"@.contains(#[trigger] w[i])
                || "0123456789-"@.contains(w[i]),
        k.len() > 0 ==> !"abcdefghijklmnopqrstuvwxyzABCDEFGHIJKLMNOPQRSTUVWXYZ_"@.contains(k[0])
            && !"0123456789-"@.contains(k[0]),
    ensures
        reads(get_ident(l), w, k),
{
    law_characters(w[0]);
    if k.len() > 0 {
        law_characters(k[0]);
    }
    assert forall|i: int| 0 <= i < w.len() implies in_word(#[trigger] w[i]) by {
        law_characters(w[i]);
    }
    lemma_word(l, w, k);
}

/// Where no word starts none is read, and the place and the character are told.
pub proof fn law_no_word(l: LexView)
    ensures
        l.skipped().rest.len() == 0 ==> get_ident(l) == Err::<(Seq<char>, LexView), ErrorView>(
            ErrorView::UnexpectedEof,
        ),
        l.skipped().rest.len() > 0
            && !"abcdefghijklmnopqrstuvwxyzABCDEFGHIJKLMNOPQRSTUVWXYZ_"@.contains(
            l.skipped().rest[0],
        ) ==> get_ident(l) == Err::<(Seq<char>, LexView), ErrorView>(
            ErrorView::UnexpectedToken {
                line: l.skipped().line,
                col: l.skipped().col,
                got: "'"@ + seq![l.skipped().next_byte()] + "'"@,
            },
        ),
{
    if l.skipped().rest.len() > 0 {
        law_characters(l.skipped().rest[0]);
        reveal_strlit("'");
        let c = l.skipped().next_byte();
        assert(seq!['\'', c, '\''] =~= "'"@ + seq![c] + "'"@);
    }
}

/// A key is its word and the sign behind it; another word there is told as the
/// field that is missing.
pub proof fn law_key(l: LexView, key: Seq<char>)
    ensures
        match get_ident(l) {
            Ok((w, m)) => {
                &&& w != key ==> get_key(l, key) == Err::<((), LexView), ErrorView>(
                    ErrorView::MissingField(key),
                )
                &&& w == key ==> get_key(l, key) == get_char(m, '=')
            },
            Err(e) => get_key(l, key) == Err::<((), LexView), ErrorView>(e),
        },
{
}

/// A wanted word is taken if it is there, and nothing otherwise.
pub proof fn law_wanted_word(l: LexView, word: Seq<char>)
    ensures
        match get_ident(l) {
            Ok((w, m)) => {
                &&& w == word ==> try_word(l, word) == (true, m) && get_word(l, word) == Ok::<
                    ((), LexView),
                    ErrorView,
                >(((), m))
                &&& w != word ==> try_word(l, word) == (false, l) && get_word(l, word) == Err::<
                    ((), LexView),
                    ErrorView,
                >(ErrorView::UnexpectedToken { line: m.line, col: m.col, got: w })
            },
            Err(e) => try_word(l, word) == (false, l) && get_word(l, word) == Err::<
                ((), LexView),
                ErrorView,
            >(e),
        },
{
}

/// A wanted character is taken if it is the next one; otherwise both are told.
pub proof fn law_wanted_character(l: LexView, c: char, k: Seq<char>)
    ensures
        l.skipped().rest == seq![c] + k ==> reads(get_char(l, c), (), k) && try_char(l, c).0
            && try_char(l, c).1.rest == k,
        l.skipped().rest.len() == 0 || l.skipped().rest[0] != c ==> try_char(l, c) == (
            false,
            l.skipped(),
        ) && get_char(l, c) == Err::<((), LexView), ErrorView>(
            ErrorView::UnexpectedToken {
                line: l.skipped().line,
                col: l.skipped().col,
                got: "expected '"@ + seq![c] + "', got '"@ + seq![l.skipped().next_byte()] + "'"@,
            },
        ),
{
    if l.skipped().rest == seq![c] + k {
        lemma_char(l, c, k);
    }
}

// ---------------------------------------------------------------------------
// Numbers
// ---------------------------------------------------------------------------

proof fn lemma_hex_run(w: Seq<char>, k: Seq<char>)
    requires
        forall|i: int| 0 <= i < w.len() ==> is_hex_digit(#[trigger] w[i]),
        k.len() > 0 ==> !is_hex_digit(k[0]),
    ensures
        hex_len(w + k) == w.len(),
    decreases w.len(),
{
    if w.len() == 0 {
        assert(w + k =~= k);
    } else {
        assert((w + k)[0] == w[0]);
        assert((w + k).drop_first() =~= w.drop_first() + k);
        lemma_hex_run(w.drop_first(), k);
    }
}

/// The value of digits: each further one multiplies by the base.
pub proof fn law_value_of_digits(s: Seq<char>, c: char, base: nat)
    requires
        is_hex_digit(c),
    ensures
        value_of(Seq::empty(), base) == 0,
        value_of(s.push(c), base) == value_of(s, base) * base + digit_value(c),
{
    assert(s.push(c).drop_last() =~= s);
    assert(0 <= value_of(s, base) * base) by (nonlinear_arith);
}

/// Decimal digits are read as a number, if it is not too large; with a letter
/// among them they are none.
pub proof fn law_decimal_read(l: LexView, w: Seq<char>, k: Seq<char>, max: nat)
    requires
        l.skipped().rest == w + k,
        w.len() > 0,
        forall|i: int| 0 <= i < w.len() ==> is_hex_digit(#[trigger] w[i]),
        k.len() > 0 ==> !is_hex_digit(k[0]) && k[0] != 'x' && k[0] != 'X',
    ensures
        (forall|i: int| 0 <= i < w.len() ==> is_digit(#[trigger] w[i])) && value_of(w, 10) <= max
            ==> reads(get_number(l, max), value_of(w, 10), k),
        !(forall|i: int| 0 <= i < w.len() ==> is_digit(#[trigger] w[i])) || value_of(w, 10) > max
            ==> get_number(l, max) == Err::<(nat, LexView), ErrorView>(ErrorView::InvalidInt(w)),
{
    lemma_hex_run(w, k);
    let s = w + k;
    assert(s[0] == w[0]);
    if s.len() > 1 {
        if w.len() > 1 {
            assert(s[1] == w[1]);
        } else {
            assert(s[1] == k[0]);
        }
    }
    assert(!has_hex_prefix(s));
    assert(s.take(w.len() as int) =~= w);
    assert(s.skip(w.len() as int) =~= k);
    assert(!has_hex_prefix(w));
}

/// Digits behind `0x` or `0X` are read in hexadecimal.
pub proof fn law_hexadecimal_read(l: LexView, x: char, w: Seq<char>, k: Seq<char>, max: nat)
    requires
        x == 'x' || x == 'X',
        l.skipped().rest == seq!['0', x] + w + k,
        forall|i: int| 0 <= i < w.len() ==> is_hex_digit(#[trigger] w[i]),
        k.len() > 0 ==> !is_hex_digit(k[0]),
    ensures
        w.len() == 0 ==> get_number(l, max) == Err::<(nat, LexView), ErrorView>(
            ErrorView::UnexpectedEof,
        ),
        w.len() > 0 && value_of(w, 16) <= max ==> reads(get_number(l, max), value_of(w, 16), k),
        w.len() > 0 && value_of(w, 16) > max ==> get_number(l, max) == Err::<
            (nat, LexView),
            ErrorView,
        >(ErrorView::InvalidInt(seq!['0', x] + w)),
{
    lemma_hex_run(w, k);
    let s = seq!['0', x] + w + k;
    assert(s[0] == '0' && s[1] == x);
    assert(has_hex_prefix(s));
    assert(s.skip(2) =~= w + k);
    let n = 2 + w.len() as int;
    assert(number_len(s) == n);
    let raw = seq!['0', x] + w;
    assert(s.take(n) =~= raw);
    assert(s.skip(n) =~= k);
    assert(raw[0] == '0' && raw[1] == x);
    assert(raw.skip(2) =~= w);
}

/// Where no digit stands there is no number.
pub proof fn law_no_number(l: LexView, max: nat)
    requires
        l.skipped().rest.len() > 0 ==> !is_hex_digit(l.skipped().rest[0]),
    ensures
        get_number(l, max) == Err::<(nat, LexView), ErrorView>(ErrorView::UnexpectedEof),
{
}

/// How large numbers may be.
pub proof fn law_number_bounds(l: LexView)
    ensures
        match get_number(l, 0xffff_ffff) {
            Ok((n, m)) => get_u32(l) == Ok::<(u32, LexView), ErrorView>((n as u32, m))
                && get_usize(l)
                == Ok::<(usize, LexView), ErrorView>((n as usize, m)) && n <= 0xffff_ffff,
            Err(e) => get_u32(l) == Err::<(u32, LexView), ErrorView>(e) && get_usize(l) == Err::<
                (usize, LexView),
                ErrorView,
            >(e),
        },
        match get_number(l, 0xffff_ffff_ffff_ffff) {
            Ok((n, m)) => get_u64(l) == Ok::<(u64, LexView), ErrorView>((n as u64, m)) && n
                <= 0xffff_ffff_ffff_ffff,
            Err(e) => get_u64(l) == Err::<(u64, LexView), ErrorView>(e),
        },
        match get_number(l, 0xffff_ffff_ffff_ffff_ffff_ffff_ffff_ffff) {
            Ok((n, m)) => get_u128(l) == Ok::<(u128, LexView), ErrorView>((n as u128, m)) && n
                <= 0xffff_ffff_ffff_ffff_ffff_ffff_ffff_ffff,
            Err(e) => get_u128(l) == Err::<(u128, LexView), ErrorView>(e),
        },
{
}

/// A variable is the letter v and its number.
pub proof fn law_variable_read(l: LexView, m: LexView)
    ensures
        l.skipped().rest.len() > 0 && l.skipped().rest[0] == 'v' && m == l.skipped().advanced()
            ==> get_var(l) == get_u32(m) && m.rest == l.skipped().rest.skip(1),
        l.skipped().rest.len() == 0 ==> get_var(l) == Err::<(u32, LexView), ErrorView>(
            ErrorView::UnexpectedEof,
        ),
        l.skipped().rest.len() > 0 && l.skipped().rest[0] != 'v' ==> get_var(l) == Err::<
            (u32, LexView),
            ErrorView,
        >(
            ErrorView::UnexpectedToken {
                line: l.skipped().line,
                col: l.skipped().col,
                got: "expected 'v<N>', got '"@ + seq![l.skipped().next_byte()] + "'"@,
            },
        ),
{
    if l.skipped().rest.len() > 0 {
        assert(l.skipped().rest.skip(1) =~= l.skipped().rest.drop_first());
    }
}

// ---------------------------------------------------------------------------
// Quoted texts and lists
// ---------------------------------------------------------------------------

/// In a quoted text a quote ends it, and a backslash goes with the character
/// behind it: `n`, `t` and `r` are a line end, a tab and a return, any other one
/// is itself. A text that does not end is none.
pub proof fn law_quoted_read(l: LexView, so_far: Seq<char>)
    ensures
        l.rest.len() == 0 ==> get_quoted(l, so_far) == Err::<(Seq<char>, LexView), ErrorView>(
            ErrorView::UnexpectedEof,
        ),
        l.rest.len() > 0 && l.rest[0]
            == '"' ==> reads(get_quoted(l, so_far), so_far, l.rest.skip(1)),
        l.rest.len() == 1 && l.rest[0] == '\\' ==> get_quoted(l, so_far) == Err::<
            (Seq<char>, LexView),
            ErrorView,
        >(ErrorView::UnexpectedEof),
        l.rest.len() > 1 && l.rest[0] == '\\' ==> get_quoted(l, so_far) == get_quoted(
            l.advanced().advanced(),
            so_far.push(
                if l.rest[1] == 'n' {
                    '\n'
                } else if l.rest[1] == 't' {
                    '\t'
                } else if l.rest[1] == 'r' {
                    '\r'
                } else {
                    l.rest[1]
                },
            ),
        ) && l.advanced().advanced().rest == l.rest.skip(2),
        l.rest.len() > 0 && l.rest[0] != '\\' && l.rest[0] != '"' ==> get_quoted(l, so_far)
            == get_quoted(l.along(1, 1), so_far.push(l.rest[0])) && l.along(1, 1).rest
            == l.rest.skip(1),
{
    reveal_with_fuel(get_quoted, 2);
    if l.rest.len() > 0 {
        assert(l.rest.drop_first() =~= l.rest.skip(1));
        if l.rest.len() > 1 {
            assert(l.advanced().rest[0] == l.rest[1]);
            assert(l.advanced().rest.drop_first() =~= l.rest.skip(2));
        }
    }
}

/// A quoted text starts with a quote.
pub proof fn law_string_starts(l: LexView, k: Seq<char>)
    requires
        l.skipped().rest == "\""@ + k,
    ensures
        get_string(l) == get_quoted(l.skipped().advanced(), Seq::empty()),
        l.skipped().advanced().rest == k,
{
    reveal_strlit("\"");
    assert(("\""@ + k)[0] == '"');
    assert(("\""@ + k).drop_first() =~= k);
}

/// The items of a list stand between commas; one may stand behind the last item
/// too.
pub proof fn law_list_read(l: LexView, var: bool, close: char, so_far: Seq<u32>)
    ensures
        try_char(l, close).0 ==> get_items(l, var, close, so_far) == Ok::<
            (Seq<u32>, LexView),
            ErrorView,
        >((so_far, try_char(l, close).1)),
        !try_char(l, close).0 ==> match (if var {
            get_var(try_char(l, close).1)
        } else {
            get_u32(try_char(l, close).1)
        }) {
            Err(e) => get_items(l, var, close, so_far) == Err::<(Seq<u32>, LexView), ErrorView>(e),
            Ok((n, m)) => {
                &&& try_char(m, ',').0 ==> get_items(l, var, close, so_far) == get_items(
                    try_char(m, ',').1,
                    var,
                    close,
                    so_far.push(n),
                )
                &&& !try_char(m, ',').0 ==> match get_char(try_char(m, ',').1, close) {
                    Ok((_, end)) => get_items(l, var, close, so_far) == Ok::<
                        (Seq<u32>, LexView),
                        ErrorView,
                    >((so_far.push(n), end)),
                    Err(e) => get_items(l, var, close, so_far) == Err::<
                        (Seq<u32>, LexView),
                        ErrorView,
                    >(e),
                }
            },
        },
{
    reveal_with_fuel(get_items, 2);
}

/// A fixed text is read if it is there.
pub proof fn law_text_read(l: LexView, w: Seq<char>, k: Seq<char>)
    ensures
        l.skipped().rest == w + k ==> reads(get_str(l, w), (), k),
        !w.is_prefix_of(l.skipped().rest) ==> get_str(l, w) is Err,
{
    if l.skipped().rest == w + k {
        assert(w.is_prefix_of(w + k)) by {
            assert((w + k).subrange(0, w.len() as int) =~= w);
        }
        lemma_advanced(l.skipped(), w.len());
        assert((w + k).skip(w.len() as int) =~= k);
    }
}

proof fn lemma_advanced(l: LexView, n: nat)
    requires
        n <= l.rest.len(),
    ensures
        advanced_by(l, n).rest == l.rest.skip(n as int),
    decreases n,
{
    if n > 0 {
        lemma_advanced(l.advanced(), (n - 1) as nat);
        assert(l.rest.drop_first().skip(n - 1) =~= l.rest.skip(n as int));
    } else {
        assert(l.rest.skip(0) =~= l.rest);
    }
}

/// A comma is taken only together with what has to stand behind it.
pub proof fn law_comma_read(l: LexView, c: char)
    ensures
        try_comma(l, c).0 <==> l.skipped().at(',') && l.skipped().advanced().skipped().at(c),
        try_comma(l, c).0 ==> try_comma(l, c).1.at(c),
        !try_comma(l, c).0 ==> try_comma(l, c).1 == l.skipped(),
{
}

// ---------------------------------------------------------------------------
// Bytes and stops
// ---------------------------------------------------------------------------

/// A wanted byte is taken if it is the next one, also out of the middle of a
/// character; a character is left behind with its last byte.
pub proof fn law_byte_read(l: LexView, b: u8)
    ensures
        ({
            let t = l.skipped();
            let there = t.rest.len() > 0 && byte_of(t.rest[0], t.taken) == b;
            &&& try_one_byte(l, b).0 == there
            &&& !there ==> try_one_byte(l, b).1 == t && get_byte(l, b) == Err::<
                ((), LexView),
                ErrorView,
            >(
                ErrorView::UnexpectedToken {
                    line: t.line,
                    col: t.col,
                    got: "expected '"@ + seq![b as char] + "', got '"@ + seq![t.next_byte()] + "'"@,
                },
            )
            &&& there ==> get_byte(l, b) == Ok::<((), LexView), ErrorView>(
                ((), try_one_byte(l, b).1),
            )
            &&& there && t.taken + 1 < byte_count(t.rest[0]) ==> try_one_byte(l, b).1.rest == t.rest
                && try_one_byte(l, b).1.taken == t.taken + 1 && try_one_byte(l, b).1.line == t.line
            &&& there && t.taken + 1 >= byte_count(t.rest[0]) ==> try_one_byte(l, b).1.rest
                == t.rest.skip(1) && try_one_byte(l, b).1.taken == 0
            &&& there && t.rest[0] != '\n' && t.col < u32::MAX ==> try_one_byte(l, b).1.col == t.col
                + 1
        }),
{
    let t = l.skipped();
    if t.rest.len() > 0 {
        assert(t.rest.drop_first() =~= t.rest.skip(1));
    }
}

/// Where reading stops at a word that is not wanted: behind it, or before what is
/// no word; at a key whose sign is missing: before what stands in its place.
pub proof fn law_word_stops(l: LexView, key: Seq<char>)
    ensures
        match get_ident(l) {
            Ok((w, m)) => {
                &&& word_stop(l) == m
                &&& w != key ==> key_stop(l, key) == m
                &&& w == key ==> key_stop(l, key) == m.skipped()
            },
            Err(_) => word_stop(l) == l.skipped() && key_stop(l, key) == l.skipped(),
        },
{
}

/// Where reading stops at a number that is none or too large: behind its digits
/// and its prefix.
pub proof fn law_number_stops(l: LexView, w: Seq<char>, k: Seq<char>)
    requires
        forall|i: int| 0 <= i < w.len() ==> is_hex_digit(#[trigger] w[i]),
        k.len() > 0 ==> !is_hex_digit(k[0]) && k[0] != 'x' && k[0] != 'X',
    ensures
        l.skipped().rest == w + k ==> number_stop(l).rest == k,
        l.skipped().rest == "0x"@ + w + k ==> number_stop(l).rest == k,
{
    reveal_strlit("0x");
    lemma_hex_run(w, k);
    if l.skipped().rest == w + k {
        let s = w + k;
        if w.len() > 0 {
            assert(s[0] == w[0]);
            if w.len() > 1 {
                assert(s[1] == w[1]);
            } else if k.len() > 0 {
                assert(s[1] == k[0]);
            }
        } else if k.len() > 0 {
            assert(s[0] == k[0]);
        }
        assert(!has_hex_prefix(s));
        assert(s.skip(w.len() as int) =~= k);
    }
    if l.skipped().rest == "0x"@ + w + k {
        let s = "0x"@ + w + k;
        assert(s[0] == '0' && s[1] == 'x');
        assert(s.skip(2) =~= w + k);
        assert(s.skip(2 + w.len() as int) =~= k);
    }
}

/// Where reading stops at a quoted text: before what is none, or at the end of a
/// text that does not end its quote.
pub proof fn law_string_stops(l: LexView)
    ensures
        !l.skipped().at('"') ==> string_stop(l) == l.skipped(),
        l.skipped().at('"') && get_string(l) is Err ==> string_stop(l).rest.len() == 0,
{
    if l.skipped().at('"') {
        lemma_quoted_stop(l.skipped().advanced(), Seq::empty());
    }
}

proof fn lemma_quoted_stop(l: LexView, so_far: Seq<char>)
    ensures
        get_quoted(l, so_far) is Err ==> quoted_stop(l).rest.len() == 0,
    decreases l.rest.len(),
{
    if l.rest.len() > 0 && l.rest[0] != '"' {
        if l.rest[0] == '\\' {
            let m = l.advanced();
            if m.rest.len() > 0 {
                lemma_quoted_stop(
                    m.advanced(),
                    so_far.push(crate::text::lexer::unescaped(m.rest[0])),
                );
            }
        } else {
            lemma_quoted_stop(l.along(1, 1), so_far.push(l.rest[0]));
        }
    }
}

/// Where reading stops at a variable: before what is none, or where its number
/// stops.
pub proof fn law_variable_stops(l: LexView)
    ensures
        l.skipped().at('v') ==> var_stop(l) == number_stop(l.skipped().advanced()),
        !l.skipped().at('v') ==> var_stop(l) == l.skipped(),
        item_stop(l, true) == var_stop(l),
        item_stop(l, false) == number_stop(l),
{
}

/// Where reading stops in a list: at the item that is none, or where the end of
/// the list is missing.
pub proof fn law_list_stops(l: LexView, var: bool, open: char, close: char)
    ensures
        !l.skipped().at(open) ==> list_stop(l, var, open, close) == l.skipped(),
        l.skipped().at(open) ==> list_stop(l, var, open, close) == items_stop(
            l.skipped().advanced(),
            var,
            close,
        ),
        !try_char(l, close).0 ==> match (if var {
            get_var(try_char(l, close).1)
        } else {
            get_u32(try_char(l, close).1)
        }) {
            Err(_) => items_stop(l, var, close) == item_stop(try_char(l, close).1, var),
            Ok((_, m)) => {
                &&& try_char(m, ',').0 ==> items_stop(l, var, close) == items_stop(
                    try_char(m, ',').1,
                    var,
                    close,
                )
                &&& !try_char(m, ',').0 ==> items_stop(l, var, close) == m.skipped()
            },
        },
{
    reveal_with_fuel(items_stop, 2);
    if !try_char(l, close).0 {
        let item = if var {
            get_var(try_char(l, close).1)
        } else {
            get_u32(try_char(l, close).1)
        };
        if let Ok((_, m)) = item {
            lemma_skipped_twice(m);
        }
    }
}

proof fn lemma_skipped_twice(l: LexView)
    ensures
        l.skipped().skipped() == l.skipped(),
{
    crate::text::lexer::lemma_skipped_shrinks(l);
    lemma_at_token(l.skipped());
}

} // verus!
