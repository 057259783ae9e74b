//! Reading words, numbers, strings and lists out of a text.
//!
//! Blanks, line ends and comments, which run from a semicolon to the end of the
//! line, may stand before every token.

use vstd::prelude::*;

use crate::text::error::{ErrorView, ParseError};

verus! {

// ---------------------------------------------------------------------------
// Characters
// ---------------------------------------------------------------------------

/// The number of bytes of a character.
pub open spec fn byte_count(c: char) -> nat {
    if (c as u32) < 0x80 {
        1
    } else if (c as u32) < 0x800 {
        2
    } else if (c as u32) < 0x10000 {
        3
    } else {
        4
    }
}

/// The first byte of a character.
pub open spec fn lead_byte(c: char) -> int {
    let n = c as u32;
    if n < 0x80 {
        n as int
    } else if n < 0x800 {
        0xc0 + n / 64
    } else if n < 0x10000 {
        0xe0 + n / 4096
    } else {
        0xf0 + n / 262144
    }
}

/// Byte `i` of a character.
pub open spec fn byte_of(c: char, i: nat) -> int {
    let n = c as u32;
    if i == 0 {
        lead_byte(c)
    } else if i + 1 == byte_count(c) {
        0x80 + n % 64
    } else if i + 2 == byte_count(c) {
        0x80 + n / 64 % 64
    } else {
        0x80 + n / 4096 % 64
    }
}

/// A byte below 0x80 is the character that it is, and stands in no other.
proof fn lemma_byte_of(c: char, i: nat, b: u8)
    requires
        b < 0x80,
        i < byte_count(c),
    ensures
        byte_of(c, i) == b <==> c == b as char,
        c == b as char ==> byte_count(c) == 1,
{
    assert((b as char) as u32 == b as u32);
    if c as u32 == b as u32 {
        assert(c as int == (b as char) as int);
    }
}

/// Whether a character separates tokens.
pub open spec fn is_blank(c: char) -> bool {
    c == ' ' || c == '\t' || c == '\r' || c == '\n'
}

/// Whether a character is a letter from A to Z.
pub open spec fn is_letter(c: char) -> bool {
    ('a' <= c && c <= 'z') || ('A' <= c && c <= 'Z')
}

/// Whether a character is a decimal digit.
pub open spec fn is_digit(c: char) -> bool {
    '0' <= c && c <= '9'
}

/// Whether a character is a hexadecimal digit.
pub open spec fn is_hex_digit(c: char) -> bool {
    is_digit(c) || ('a' <= c && c <= 'f') || ('A' <= c && c <= 'F')
}

/// The value of a digit.
pub open spec fn digit_value(c: char) -> int {
    if is_digit(c) {
        c as int - '0' as int
    } else if 'a' <= c {
        c as int - 'a' as int + 10
    } else {
        c as int - 'A' as int + 10
    }
}

/// Whether a word may start with a character.
pub open spec fn starts_word(c: char) -> bool {
    is_letter(c) || c == '_'
}

/// Whether a character may stand in a word.
pub open spec fn in_word(c: char) -> bool {
    is_letter(c) || is_digit(c) || c == '_' || c == '-'
}

/// The character that stands behind a backslash for another.
pub open spec fn unescaped(c: char) -> char {
    if c == 'n' {
        '\n'
    } else if c == 't' {
        '\t'
    } else if c == 'r' {
        '\r'
    } else {
        c
    }
}

// ---------------------------------------------------------------------------
// The state
// ---------------------------------------------------------------------------

/// What is left of a text, and at which line and column it starts.
#[verifier::ext_equal]
pub struct LexView {
    pub rest: Seq<char>,
    /// How many bytes of the first character are taken already.
    pub taken: nat,
    pub line: u32,
    pub col: u32,
}

/// What reading gives: a value and the state behind it, or an error.
pub type Parsed<T> = Result<(T, LexView), ErrorView>;

/// A column `n` further on; the largest number stays.
pub open spec fn moved(col: u32, n: nat) -> u32 {
    if col + n > u32::MAX {
        u32::MAX
    } else {
        (col + n) as u32
    }
}

/// The number of characters up to the end of the line.
pub open spec fn line_len(s: Seq<char>) -> nat
    decreases s.len(),
{
    if s.len() == 0 || s[0] == '\n' {
        0
    } else {
        1 + line_len(s.drop_first())
    }
}

/// The number of bytes of a text.
pub open spec fn bytes_of(s: Seq<char>) -> nat
    decreases s.len(),
{
    if s.len() == 0 {
        0
    } else {
        byte_count(s[0]) + bytes_of(s.drop_first())
    }
}

/// The number of characters of the word at the start.
pub open spec fn word_len(s: Seq<char>) -> nat
    decreases s.len(),
{
    if s.len() == 0 || !in_word(s[0]) {
        0
    } else {
        1 + word_len(s.drop_first())
    }
}

/// The number of hexadecimal digits at the start.
pub open spec fn hex_len(s: Seq<char>) -> nat
    decreases s.len(),
{
    if s.len() == 0 || !is_hex_digit(s[0]) {
        0
    } else {
        1 + hex_len(s.drop_first())
    }
}

pub proof fn lemma_line_len(s: Seq<char>)
    ensures
        line_len(s) <= s.len(),
    decreases s.len(),
{
    if s.len() > 0 {
        lemma_line_len(s.drop_first());
    }
}

pub proof fn lemma_word_len(s: Seq<char>)
    ensures
        word_len(s) <= s.len(),
    decreases s.len(),
{
    if s.len() > 0 {
        lemma_word_len(s.drop_first());
    }
}

pub proof fn lemma_hex_len(s: Seq<char>)
    ensures
        hex_len(s) <= s.len(),
        forall|i: int| 0 <= i < hex_len(s) ==> is_hex_digit(#[trigger] s[i]),
    decreases s.len(),
{
    if s.len() > 0 && is_hex_digit(s[0]) {
        lemma_hex_len(s.drop_first());
        assert forall|i: int| 0 <= i < hex_len(s) implies is_hex_digit(#[trigger] s[i]) by {
            if i > 0 {
                assert(s[i] == s.drop_first()[i - 1]);
            }
        }
    }
}

impl LexView {
    /// The state behind the next character.
    pub open spec fn advanced(self) -> LexView {
        LexView {
            rest: self.rest.drop_first(),
            taken: 0,
            line: if self.rest[0] == '\n' {
                moved(self.line, 1)
            } else {
                self.line
            },
            col: if self.rest[0] == '\n' {
                1
            } else {
                moved(self.col, byte_count(self.rest[0]))
            },
        }
    }

    /// The state behind the next byte. The character that it belongs to is left
    /// behind with the last one.
    pub open spec fn stepped(self) -> LexView {
        if self.taken + 1 < byte_count(self.rest[0]) {
            LexView { taken: self.taken + 1, col: moved(self.col, 1), ..self }
        } else {
            LexView {
                rest: self.rest.drop_first(),
                taken: 0,
                line: if self.rest[0] == '\n' {
                    moved(self.line, 1)
                } else {
                    self.line
                },
                col: if self.rest[0] == '\n' {
                    1
                } else {
                    moved(self.col, 1)
                },
            }
        }
    }

    /// The state `n` characters further on in the same line, where they count
    /// for `w` columns.
    pub open spec fn along(self, n: nat, w: nat) -> LexView {
        LexView {
            rest: self.rest.skip(n as int),
            taken: if n == 0 {
                self.taken
            } else {
                0
            },
            line: self.line,
            col: moved(self.col, w),
        }
    }

    /// The state before the next token.
    pub open spec fn skipped(self) -> LexView
        decreases self.rest.len(),
    {
        if self.rest.len() == 0 {
            self
        } else if is_blank(self.rest[0]) {
            self.advanced().skipped()
        } else if self.rest[0] == ';' {
            let n = line_len(self.rest);
            proof {
                lemma_line_len(self.rest);
            }
            self.along(n, bytes_of(self.rest.take(n as int))).skipped()
        } else {
            self
        }
    }

    /// Whether the next character is `c`.
    pub open spec fn at(self, c: char) -> bool {
        self.rest.len() > 0 && self.rest[0] == c
    }

    /// Whether the next byte is `b`.
    pub open spec fn at_byte(self, b: u8) -> bool {
        self.rest.len() > 0 && byte_of(self.rest[0], self.taken) == b
    }

    /// The next byte, as a character; at the end the character zero.
    pub open spec fn next_byte(self) -> char {
        if self.rest.len() == 0 {
            '\0'
        } else {
            byte_of(self.rest[0], self.taken) as char
        }
    }

    /// The error at this place.
    pub open spec fn error(self, got: Seq<char>) -> ErrorView {
        ErrorView::UnexpectedToken { line: self.line, col: self.col, got }
    }
}

/// No token starts further on than the text is long.
pub broadcast proof fn lemma_skipped_shrinks(l: LexView)
    ensures
        (#[trigger] l.skipped()).rest.len() <= l.rest.len(),
        l.skipped().rest.len() > 0 ==> !is_blank(l.skipped().rest[0]) && l.skipped().rest[0] != ';',
    decreases l.rest.len(),
{
    if l.rest.len() > 0 {
        if is_blank(l.rest[0]) {
            lemma_skipped_shrinks(l.advanced());
        } else if l.rest[0] == ';' {
            let n = line_len(l.rest);
            lemma_line_len(l.rest);
            lemma_skipped_shrinks(l.along(n, bytes_of(l.rest.take(n as int))));
        }
    }
}

// ---------------------------------------------------------------------------
// Tokens
// ---------------------------------------------------------------------------

/// The word at the next token.
pub open spec fn get_ident(l0: LexView) -> Parsed<Seq<char>> {
    let l = l0.skipped();
    if l.rest.len() == 0 {
        Err(ErrorView::UnexpectedEof)
    } else if !starts_word(l.rest[0]) {
        Err(l.error(seq!['\'', l.next_byte(), '\'']))
    } else {
        let n = word_len(l.rest);
        Ok((l.rest.take(n as int), l.along(n, n)))
    }
}

/// The value of digits in a base.
pub open spec fn value_of(s: Seq<char>, base: nat) -> nat
    decreases s.len(),
{
    if s.len() == 0 {
        0
    } else {
        (value_of(s.drop_last(), base) * base + digit_value(s.last())) as nat
    }
}

/// Whether all characters are decimal digits.
pub open spec fn all_digits(s: Seq<char>) -> bool {
    forall|i: int| 0 <= i < s.len() ==> is_digit(#[trigger] s[i])
}

/// Whether a hexadecimal number starts here.
pub open spec fn has_hex_prefix(s: Seq<char>) -> bool {
    s.len() > 1 && s[0] == '0' && (s[1] == 'x' || s[1] == 'X')
}

/// The number of characters of the number at the start: an optional prefix and
/// hexadecimal digits.
pub open spec fn number_len(s: Seq<char>) -> nat {
    if has_hex_prefix(s) {
        2 + hex_len(s.skip(2))
    } else {
        hex_len(s)
    }
}

/// The number that a text denotes, if it is one of at most `max`: decimal
/// digits, or hexadecimal digits behind `0x`.
pub open spec fn number_of(raw: Seq<char>, max: nat) -> Option<nat> {
    if has_hex_prefix(raw) {
        if value_of(raw.skip(2), 16) <= max {
            Some(value_of(raw.skip(2), 16))
        } else {
            None
        }
    } else if all_digits(raw) && value_of(raw, 10) <= max {
        Some(value_of(raw, 10))
    } else {
        None
    }
}

/// The number at the next token, at most `max`.
pub open spec fn get_number(l0: LexView, max: nat) -> Parsed<nat> {
    let l = l0.skipped();
    let n = number_len(l.rest);
    let raw = l.rest.take(n as int);
    if n == 0 || (has_hex_prefix(l.rest) && n == 2) {
        Err(ErrorView::UnexpectedEof)
    } else {
        match number_of(raw, max) {
            Some(v) => Ok((v, l.along(n, n))),
            None => Err(ErrorView::InvalidInt(raw)),
        }
    }
}

/// A 32-bit number.
pub open spec fn get_u32(l: LexView) -> Parsed<u32> {
    match get_number(l, u32::MAX as nat) {
        Ok((n, l)) => Ok((n as u32, l)),
        Err(e) => Err(e),
    }
}

/// A 32-bit number, as a size.
pub open spec fn get_usize(l: LexView) -> Parsed<usize> {
    match get_number(l, u32::MAX as nat) {
        Ok((n, l)) => Ok((n as usize, l)),
        Err(e) => Err(e),
    }
}

/// A 64-bit number.
pub open spec fn get_u64(l: LexView) -> Parsed<u64> {
    match get_number(l, u64::MAX as nat) {
        Ok((n, l)) => Ok((n as u64, l)),
        Err(e) => Err(e),
    }
}

/// A 128-bit number.
pub open spec fn get_u128(l: LexView) -> Parsed<u128> {
    match get_number(l, u128::MAX as nat) {
        Ok((n, l)) => Ok((n as u128, l)),
        Err(e) => Err(e),
    }
}

/// The character `c`.
pub open spec fn get_char(l0: LexView, c: char) -> Parsed<()> {
    let l = l0.skipped();
    if l.at(c) {
        Ok(((), l.advanced()))
    } else {
        Err(l.error("expected '"@ + seq![c] + "', got '"@ + seq![l.next_byte()] + "'"@))
    }
}

/// Whether the next token is `c`, and the state behind it if it is.
pub open spec fn try_char(l0: LexView, c: char) -> (bool, LexView) {
    let l = l0.skipped();
    if l.at(c) {
        (true, l.advanced())
    } else {
        (false, l)
    }
}

/// The byte `b`.
pub open spec fn get_byte(l0: LexView, b: u8) -> Parsed<()> {
    let l = l0.skipped();
    if l.at_byte(b) {
        Ok(((), l.stepped()))
    } else {
        Err(l.error("expected '"@ + seq![b as char] + "', got '"@ + seq![l.next_byte()] + "'"@))
    }
}

/// Whether the next token starts with the byte `b`, and the state behind that
/// byte if so.
pub open spec fn try_one_byte(l0: LexView, b: u8) -> (bool, LexView) {
    let l = l0.skipped();
    if l.at_byte(b) {
        (true, l.stepped())
    } else {
        (false, l)
    }
}

/// The state behind `n` characters.
pub open spec fn advanced_by(l: LexView, n: nat) -> LexView
    decreases n,
{
    if n == 0 {
        l
    } else {
        advanced_by(l.advanced(), (n - 1) as nat)
    }
}

/// A text with its special characters written out, as the standard library
/// prints strings for debugging.
pub uninterp spec fn debug_form(s: Seq<char>) -> Seq<char>;

/// Calls `format!` of the standard library with `{:?}` on a string. The result
/// is named, not spelled out: which characters it writes out depends on tables
/// of the standard library.
#[verifier::external_body]
fn debug_string(s: &String) -> (r: String)
    ensures
        r@ == debug_form(s@),
{
    format!("{:?}", s)
}

/// What is said where `expected` was expected and `got` stands.
pub open spec fn mismatch_text(expected: Seq<char>, got: Seq<char>) -> Seq<char> {
    "expected "@ + expected + ", got "@ + got
}

/// The characters of `expected`.
pub open spec fn get_str(l0: LexView, expected: Seq<char>) -> Parsed<()> {
    let l = l0.skipped();
    if expected.is_prefix_of(l.rest) {
        Ok(((), advanced_by(l, expected.len())))
    } else {
        let got = if l.rest.len() > 16 {
            l.rest.take(16)
        } else {
            l.rest
        };
        Err(l.error(mismatch_text(debug_form(expected), debug_form(got))))
    }
}

/// The key `key` of a field, and the sign behind it.
pub open spec fn get_key(l: LexView, key: Seq<char>) -> Parsed<()> {
    match get_ident(l) {
        Ok((k, l)) => if k == key {
            get_char(l, '=')
        } else {
            Err(ErrorView::MissingField(key))
        },
        Err(e) => Err(e),
    }
}

/// The word `word`.
pub open spec fn get_word(l: LexView, word: Seq<char>) -> Parsed<()> {
    match get_ident(l) {
        Ok((k, l)) => if k == word {
            Ok(((), l))
        } else {
            Err(l.error(k))
        },
        Err(e) => Err(e),
    }
}

/// Whether the next token is the word `word`, and the state behind it if it is.
pub open spec fn try_word(l: LexView, word: Seq<char>) -> (bool, LexView) {
    match get_ident(l) {
        Ok((k, m)) => if k == word {
            (true, m)
        } else {
            (false, l)
        },
        Err(_) => (false, l),
    }
}

/// Whether the next token is a comma and `c` comes behind it, and the state
/// before `c` if so.
pub open spec fn try_comma(l0: LexView, c: char) -> (bool, LexView) {
    let l = l0.skipped();
    if l.at(',') && l.advanced().skipped().at(c) {
        (true, l.advanced().skipped())
    } else {
        (false, l)
    }
}

/// The rest of a quoted text.
pub open spec fn get_quoted(l: LexView, so_far: Seq<char>) -> Parsed<Seq<char>>
    decreases l.rest.len(),
{
    if l.rest.len() == 0 {
        Err(ErrorView::UnexpectedEof)
    } else if l.rest[0] == '"' {
        Ok((so_far, l.advanced()))
    } else if l.rest[0] == '\\' {
        let m = l.advanced();
        if m.rest.len() == 0 {
            Err(ErrorView::UnexpectedEof)
        } else {
            get_quoted(m.advanced(), so_far.push(unescaped(m.rest[0])))
        }
    } else {
        get_quoted(l.along(1, 1), so_far.push(l.rest[0]))
    }
}

/// A quoted text.
pub open spec fn get_string(l: LexView) -> Parsed<Seq<char>> {
    match get_char(l, '"') {
        Ok((_, l)) => get_quoted(l, Seq::empty()),
        Err(e) => Err(e),
    }
}

/// A variable: its number behind the letter v.
pub open spec fn get_var(l0: LexView) -> Parsed<u32> {
    let l = l0.skipped();
    if l.rest.len() == 0 {
        Err(ErrorView::UnexpectedEof)
    } else if l.rest[0] != 'v' {
        Err(l.error("expected 'v<N>', got '"@ + seq![l.next_byte()] + "'"@))
    } else {
        get_u32(l.advanced())
    }
}

/// A variable or a number.
pub open spec fn get_item(l: LexView, var: bool) -> Parsed<u32> {
    if var {
        get_var(l)
    } else {
        get_u32(l)
    }
}

pub proof fn lemma_bytes_push(s: Seq<char>, c: char)
    ensures
        bytes_of(s.push(c)) == bytes_of(s) + byte_count(c),
    decreases s.len(),
{
    let t = s.push(c);
    if s.len() == 0 {
        assert(t.drop_first() =~= Seq::empty());
        assert(bytes_of(t.drop_first()) == 0);
    } else {
        lemma_bytes_push(s.drop_first(), c);
        assert(t.drop_first() =~= s.drop_first().push(c));
    }
}

pub broadcast proof fn lemma_ident_shrinks(l: LexView)
    ensures
        #[trigger] get_ident(l) matches Ok((_, m)) ==> m.rest.len() < l.rest.len(),
{
    lemma_skipped_shrinks(l);
    lemma_word_len(l.skipped().rest);
}

pub broadcast proof fn lemma_number_shrinks(l: LexView, max: nat)
    ensures
        #[trigger] get_number(l, max) matches Ok((_, m)) ==> m.rest.len() < l.rest.len(),
{
    lemma_skipped_shrinks(l);
    let s = l.skipped().rest;
    lemma_hex_len(s);
    if has_hex_prefix(s) {
        lemma_hex_len(s.skip(2));
    }
}

pub broadcast proof fn lemma_char_shrinks(l: LexView, c: char)
    ensures
        #[trigger] get_char(l, c) matches Ok((_, m)) ==> m.rest.len() < l.rest.len(),
{
    lemma_skipped_shrinks(l);
}

pub broadcast proof fn lemma_try_shrinks(l: LexView, c: char)
    ensures
        (#[trigger] try_char(l, c)).1.rest.len() <= l.rest.len(),
        try_char(l, c).0 ==> try_char(l, c).1.rest.len() < l.rest.len(),
{
    lemma_skipped_shrinks(l);
}

proof fn lemma_advanced_by(l: LexView, n: nat)
    requires
        n <= l.rest.len(),
    ensures
        advanced_by(l, n).rest == l.rest.skip(n as int),
    decreases n,
{
    if n > 0 {
        lemma_advanced_by(l.advanced(), (n - 1) as nat);
        assert(l.rest.drop_first().skip(n - 1) =~= l.rest.skip(n as int));
    } else {
        assert(l.rest.skip(0) =~= l.rest);
    }
}

pub broadcast proof fn lemma_str_shrinks(l: LexView, s: Seq<char>)
    ensures
        #[trigger] get_str(l, s) matches Ok((_, m)) ==> m.rest.len() <= l.rest.len(),
{
    lemma_skipped_shrinks(l);
    if s.is_prefix_of(l.skipped().rest) {
        lemma_advanced_by(l.skipped(), s.len());
    }
}

pub broadcast proof fn lemma_quoted_shrinks(l: LexView, so_far: Seq<char>)
    ensures
        #[trigger] get_quoted(l, so_far) matches Ok((_, m)) ==> m.rest.len() < l.rest.len(),
    decreases l.rest.len(),
{
    if l.rest.len() > 0 && l.rest[0] != '"' {
        if l.rest[0] == '\\' {
            let m = l.advanced();
            if m.rest.len() > 0 {
                lemma_quoted_shrinks(m.advanced(), so_far.push(unescaped(m.rest[0])));
            }
        } else {
            lemma_quoted_shrinks(l.along(1, 1), so_far.push(l.rest[0]));
        }
    }
}

pub broadcast proof fn lemma_string_shrinks(l: LexView)
    ensures
        #[trigger] get_string(l) matches Ok((_, m)) ==> m.rest.len() < l.rest.len(),
{
    broadcast use {lemma_char_shrinks, lemma_quoted_shrinks};

}

pub broadcast proof fn lemma_item_shrinks(l: LexView, var: bool)
    ensures
        #[trigger] get_item(l, var) matches Ok((_, m)) ==> m.rest.len() < l.rest.len(),
{
    broadcast use {lemma_skipped_shrinks, lemma_number_shrinks};

}

/// The rest of a list of variables or numbers up to the character `close`.
pub open spec fn get_items(l: LexView, var: bool, close: char, so_far: Seq<u32>) -> Parsed<
    Seq<u32>,
>
    decreases l.rest.len(),
{
    let (end, l1) = try_char(l, close);
    if end {
        Ok((so_far, l1))
    } else {
        match get_item(l1, var) {
            Ok((n, l2)) => {
                let (more, l3) = try_char(l2, ',');
                if more {
                    proof {
                        lemma_try_shrinks(l, close);
                        lemma_item_shrinks(l1, var);
                        lemma_try_shrinks(l2, ',');
                    }
                    get_items(l3, var, close, so_far.push(n))
                } else {
                    match get_char(l3, close) {
                        Ok((_, l4)) => Ok((so_far.push(n), l4)),
                        Err(e) => Err(e),
                    }
                }
            },
            Err(e) => Err(e),
        }
    }
}

/// A list of variables or numbers between two characters.
pub open spec fn get_list(l: LexView, var: bool, open: char, close: char) -> Parsed<Seq<u32>> {
    match get_char(l, open) {
        Ok((_, l)) => get_items(l, var, close, Seq::empty()),
        Err(e) => Err(e),
    }
}

pub broadcast proof fn lemma_items_shrinks(l: LexView, var: bool, close: char, so_far: Seq<u32>)
    ensures
        #[trigger] get_items(l, var, close, so_far) matches Ok((_, m)) ==> m.rest.len()
            < l.rest.len() && m.taken == 0,
    decreases l.rest.len(),
{
    broadcast use {lemma_try_shrinks, lemma_item_shrinks, lemma_char_shrinks};

    let (end, l1) = try_char(l, close);
    if !end {
        match get_item(l1, var) {
            Ok((n, l2)) => {
                let (more, l3) = try_char(l2, ',');
                if more {
                    lemma_items_shrinks(l3, var, close, so_far.push(n));
                }
            },
            Err(_) => {},
        }
    }
}

pub broadcast proof fn lemma_list_shrinks(l: LexView, var: bool, open: char, close: char)
    ensures
        #[trigger] get_list(l, var, open, close) matches Ok((_, m)) ==> m.rest.len() < l.rest.len()
            && m.taken == 0,
{
    broadcast use {lemma_char_shrinks, lemma_items_shrinks};

}

/// No token ends further on than the text is long, and most take at least one
/// character.
pub broadcast group group_shrinks {
    lemma_skipped_shrinks,
    lemma_ident_shrinks,
    lemma_number_shrinks,
    lemma_char_shrinks,
    lemma_try_shrinks,
    lemma_str_shrinks,
    lemma_string_shrinks,
    lemma_item_shrinks,
    lemma_items_shrinks,
    lemma_list_shrinks,
}

// ---------------------------------------------------------------------------
// Where reading stops at an error
// ---------------------------------------------------------------------------

/// Behind what looks like a number.
pub open spec fn number_stop(l0: LexView) -> LexView {
    let l = l0.skipped();
    let n = number_len(l.rest);
    l.along(n, n)
}

/// Behind a word that is not the key, or before what is no word or not the sign
/// behind it.
pub open spec fn key_stop(l: LexView, key: Seq<char>) -> LexView {
    match get_ident(l) {
        Ok((k, m)) => if k == key {
            m.skipped()
        } else {
            m
        },
        Err(_) => l.skipped(),
    }
}

/// Behind another word, or before what is no word.
pub open spec fn word_stop(l: LexView) -> LexView {
    match get_ident(l) {
        Ok((_, m)) => m,
        Err(_) => l.skipped(),
    }
}

/// At the end of the text, behind the rest of a quoted text that does not end.
pub open spec fn quoted_stop(l: LexView) -> LexView
    decreases l.rest.len(),
{
    if l.rest.len() == 0 || l.rest[0] == '"' {
        l
    } else if l.rest[0] == '\\' {
        let m = l.advanced();
        if m.rest.len() == 0 {
            m
        } else {
            quoted_stop(m.advanced())
        }
    } else {
        quoted_stop(l.along(1, 1))
    }
}

/// Before what is no quoted text, or at the end of the text.
pub open spec fn string_stop(l: LexView) -> LexView {
    match get_char(l, '"') {
        Ok((_, m)) => quoted_stop(m),
        Err(_) => l.skipped(),
    }
}

/// Before what is no variable, or behind the number of one.
pub open spec fn var_stop(l0: LexView) -> LexView {
    let l = l0.skipped();
    if l.at('v') {
        number_stop(l.advanced())
    } else {
        l
    }
}

/// Where a variable or a number stops.
pub open spec fn item_stop(l: LexView, var: bool) -> LexView {
    if var {
        var_stop(l)
    } else {
        number_stop(l)
    }
}

/// Where the rest of a list stops: at the item that is none, or where the list
/// should have ended.
pub open spec fn items_stop(l: LexView, var: bool, close: char) -> LexView
    decreases l.rest.len(),
{
    let (end, l1) = try_char(l, close);
    if end {
        l1
    } else {
        match get_item(l1, var) {
            Ok((_, l2)) => {
                let (more, l3) = try_char(l2, ',');
                if more {
                    proof {
                        lemma_try_shrinks(l, close);
                        lemma_item_shrinks(l1, var);
                        lemma_try_shrinks(l2, ',');
                    }
                    items_stop(l3, var, close)
                } else {
                    l3.skipped()
                }
            },
            Err(_) => item_stop(l1, var),
        }
    }
}

/// Where a list stops.
pub open spec fn list_stop(l: LexView, var: bool, open: char, close: char) -> LexView {
    match get_char(l, open) {
        Ok((_, m)) => items_stop(m, var, close),
        Err(_) => l.skipped(),
    }
}

// ---------------------------------------------------------------------------
// The reader
// ---------------------------------------------------------------------------

/// Whether a result and the state behind it are what reading gives.
pub open spec fn gives<T>(r: Result<T, ParseError>, after: LexView, p: Parsed<T>) -> bool {
    match p {
        Ok((v, m)) => r matches Ok(x) && x == v && after == m,
        Err(e) => r matches Err(x) && x@ == e,
    }
}

/// Whether what a result denotes and the state behind it are what reading
/// gives.
pub open spec fn gives_view<T: View>(
    r: Result<T, ParseError>,
    after: LexView,
    p: Parsed<T::V>,
) -> bool {
    match p {
        Ok((v, m)) => r matches Ok(x) && x@ == v && after == m,
        Err(e) => r matches Err(x) && x@ == e,
    }
}

/// A place in a text.
#[derive(Clone, Copy, PartialEq, Eq, Debug, Structural)]
pub struct Pos {
    pub line: u32,
    pub col: u32,
}

/// Reads a text token by token.
pub struct Lexer {
    chars: Vec<char>,
    place: usize,
    /// How many bytes of the character at the place are taken already. What is
    /// not below the number of its bytes counts as none.
    taken: u32,
    line: u32,
    col: u32,
}

impl View for Lexer {
    type V = LexView;

    closed spec fn view(&self) -> LexView {
        LexView {
            rest: if self.place <= self.chars@.len() {
                self.chars@.skip(self.place as int)
            } else {
                Seq::empty()
            },
            taken: if self.place < self.chars@.len() && self.taken < byte_count(
                self.chars@[self.place as int],
            ) {
                self.taken as nat
            } else {
                0
            },
            line: self.line,
            col: self.col,
        }
    }
}

/// The characters of a text.
pub(crate) fn chars_of(s: &str) -> (r: Vec<char>)
    ensures
        r@ == s@,
{
    let mut out: Vec<char> = Vec::new();
    for c in it: s.chars()
        invariant
            out@ == s@.take(it.index() as int),
            it.seq() == s@,
    {
        out.push(c);
        assert(s@.take(it.index() + 1) =~= s@.take(it.index() as int).push(c));
    }
    assert(out@ =~= s@);
    out
}

/// A text of one character list.
pub(crate) fn string_of(v: &Vec<char>, from: usize, to: usize) -> (r: String)
    requires
        from <= to <= v@.len(),
    ensures
        r@ == v@.subrange(from as int, to as int),
{
    let mut out: String = String::new();
    let mut i: usize = from;
    assert(out@ =~= v@.subrange(from as int, from as int));
    while i < to
        invariant
            from <= i <= to <= v@.len(),
            out@ == v@.subrange(from as int, i as int),
        decreases to - i,
    {
        out.push(v[i]);
        assert(v@.subrange(from as int, i + 1) =~= v@.subrange(from as int, i as int).push(
            v@[i as int],
        ));
        i += 1;
    }
    out
}

fn blank(c: char) -> (b: bool)
    ensures
        b == is_blank(c),
{
    c == ' ' || c == '\t' || c == '\r' || c == '\n'
}

fn letter(c: char) -> (b: bool)
    ensures
        b == is_letter(c),
{
    ('a' <= c && c <= 'z') || ('A' <= c && c <= 'Z')
}

fn decimal(c: char) -> (b: bool)
    ensures
        b == is_digit(c),
{
    '0' <= c && c <= '9'
}

fn hexadecimal(c: char) -> (b: bool)
    ensures
        b == is_hex_digit(c),
{
    decimal(c) || ('a' <= c && c <= 'f') || ('A' <= c && c <= 'F')
}

/// The number of bytes of a character.
fn width_of(c: char) -> (n: u32)
    ensures
        n == byte_count(c),
{
    let n: u32 = c as u32;
    if n < 0x80 {
        1
    } else if n < 0x800 {
        2
    } else if n < 0x10000 {
        3
    } else {
        4
    }
}

/// Byte `i` of a character.
fn nth_byte(c: char, i: u32) -> (b: u8)
    requires
        i < byte_count(c),
    ensures
        b == byte_of(c, i as nat),
{
    let n: u32 = c as u32;
    let w: u32 = width_of(c);
    if i > 0 {
        if i + 1 == w {
            (0x80 + n % 64) as u8
        } else if i + 2 == w {
            (0x80 + n / 64 % 64) as u8
        } else {
            (0x80 + n / 4096 % 64) as u8
        }
    } else if n < 0x80 {
        n as u8
    } else if n < 0x800 {
        (0xc0 + n / 64) as u8
    } else if n < 0x10000 {
        (0xe0 + n / 4096) as u8
    } else {
        (0xf0 + n / 262144) as u8
    }
}

/// The value of a hexadecimal digit.
fn value_of_digit(c: char) -> (n: u8)
    requires
        is_hex_digit(c),
    ensures
        n == digit_value(c),
        n < 16,
{
    if decimal(c) {
        (c as u32 - '0' as u32) as u8
    } else if 'a' <= c {
        (c as u32 - 'a' as u32 + 10) as u8
    } else {
        (c as u32 - 'A' as u32 + 10) as u8
    }
}

/// A text of one character.
fn push_char_text(s: &mut String, before: &str, c: char, after: &str)
    ensures
        final(s)@ == old(s)@ + before@ + seq![c] + after@,
{
    s.push_str(before);
    s.push(c);
    s.push_str(after);
    assert(s@ =~= old(s)@ + before@ + seq![c] + after@);
}

/// What is said where `expected` was expected and `got` stands, both as they
/// are printed for debugging.
pub fn mismatch_message(expected: &String, got: &String) -> (r: String)
    ensures
        r@ == mismatch_text(expected@, got@),
{
    let mut r: String = String::new();
    r.push_str("expected ");
    r.push_str(expected.as_str());
    r.push_str(", got ");
    r.push_str(got.as_str());
    assert(r@ =~= mismatch_text(expected@, got@));
    r
}

/// Whether a word is a given one.
pub fn is_word(word: &String, other: &str) -> (b: bool)
    ensures
        b == (word@ == other@),
{
    *word == other.to_owned()
}

proof fn lemma_value_grows(s: Seq<char>, base: nat, k: int)
    requires
        0 <= k <= s.len(),
        base >= 1,
        forall|i: int| 0 <= i < s.len() ==> is_hex_digit(#[trigger] s[i]),
    ensures
        value_of(s.take(k), base) <= value_of(s, base),
    decreases s.len(),
{
    if k < s.len() {
        let t = s.drop_last();
        lemma_value_grows(t, base, k);
        assert(t.take(k) =~= s.take(k));
        assert(is_hex_digit(s[s.len() - 1]));
        let v = value_of(t, base);
        assert(v * base >= v) by (nonlinear_arith)
            requires
                base >= 1,
        ;
    } else {
        assert(s.take(k) =~= s);
    }
}

/// The value of digits in a base, if all are digits of it and the value is at
/// most `max`.
fn digits_value(v: &Vec<char>, from: usize, to: usize, base: u8, max: u128) -> (r: Option<u128>)
    requires
        from <= to <= v@.len(),
        base == 10 || base == 16,
        forall|i: int| from <= i < to ==> is_hex_digit(#[trigger] v@[i]),
    ensures
        ({
            let s = v@.subrange(from as int, to as int);
            match r {
                Some(n) => (base == 16 || all_digits(s)) && n == value_of(s, base as nat) && n
                    <= max,
                None => (base == 10 && !all_digits(s)) || value_of(s, base as nat) > max,
            }
        }),
{
    let ghost s = v@.subrange(from as int, to as int);
    let mut n: u128 = 0;
    let mut i: usize = from;
    proof {
        assert(s.take(0) =~= Seq::empty());
        assert forall|k: int| 0 <= k < s.len() implies is_hex_digit(#[trigger] s[k]) by {
            assert(s[k] == v@[from + k]);
        }
    }
    while i < to
        invariant
            from <= i <= to <= v@.len(),
            base == 10 || base == 16,
            s == v@.subrange(from as int, to as int),
            forall|k: int| 0 <= k < s.len() ==> is_hex_digit(#[trigger] s[k]),
            n == value_of(s.take(i - from), base as nat),
            n <= max,
            base == 10 ==> forall|k: int| 0 <= k < i - from ==> is_digit(#[trigger] s[k]),
        decreases to - i,
    {
        let c: char = v[i];
        let ghost k = i - from;
        proof {
            assert(s[k] == v@[i as int]);
            assert(s.take(k + 1).drop_last() =~= s.take(k));
            assert(s.take(k + 1).last() == s[k]);
            lemma_value_grows(s, base as nat, k + 1);
        }
        if base == 10 && !decimal(c) {
            assert(!is_digit(s[k]));
            return None;
        }
        let d: u8 = value_of_digit(c);
        match n.checked_mul(base as u128) {
            Some(m) => {
                match m.checked_add(d as u128) {
                    Some(next) => {
                        if next > max {
                            return None;
                        }
                        n = next;
                    },
                    None => {
                        return None;
                    },
                }
            },
            None => {
                return None;
            },
        }
        i += 1;
    }
    assert(s.take(i - from) =~= s);
    Some(n)
}

impl Lexer {
    /// The whole text.
    pub closed spec fn source(&self) -> Seq<char> {
        self.chars@
    }

    /// A reader at the start of a text.
    pub fn new(src: &str) -> (r: Self)
        ensures
            r@ == (LexView { rest: src@, taken: 0, line: 1, col: 1 }),
    {
        let r = Lexer { chars: chars_of(src), place: 0, taken: 0, line: 1, col: 1 };
        assert(r@.rest =~= src@);
        r
    }

    /// The place.
    pub fn pos(&self) -> (r: Pos)
        ensures
            r == (Pos { line: self@.line, col: self@.col }),
    {
        Pos { line: self.line, col: self.col }
    }

    /// The next character.
    fn next_char(&self) -> (r: Option<char>)
        ensures
            match r {
                Some(c) => self@.rest.len() > 0 && c == self@.rest[0],
                None => self@.rest.len() == 0,
            },
    {
        if self.place < self.chars.len() {
            Some(self.chars[self.place])
        } else {
            None
        }
    }

    /// The next byte.
    fn next_byte(&self) -> (r: Option<u8>)
        ensures
            match r {
                Some(b) => self@.at_byte(b),
                None => self@.rest.len() == 0,
            },
    {
        match self.next_char() {
            Some(c) => Some(
                nth_byte(
                    c,
                    if self.taken < width_of(c) {
                        self.taken
                    } else {
                        0
                    },
                ),
            ),
            None => None,
        }
    }

    /// The next byte, as a character; at the end the character zero.
    fn next_byte_char(&self) -> (r: char)
        ensures
            r == self@.next_byte(),
    {
        match self.next_byte() {
            Some(b) => b as char,
            None => '\0',
        }
    }

    /// Go past the next byte.
    fn step(&mut self)
        requires
            old(self)@.rest.len() > 0,
        ensures
            final(self)@ == old(self)@.stepped(),
    {
        let n: usize = self.chars.len();
        assert(self.place < n);
        let c: char = self.chars[self.place];
        let w: u32 = width_of(c);
        let taken: u32 = if self.taken < w {
            self.taken
        } else {
            0
        };
        if taken + 1 < w {
            self.taken = taken + 1;
            self.col = self.col.saturating_add(1);
        } else {
            self.place = self.place + 1;
            self.taken = 0;
            if c == '\n' {
                self.line = self.line.saturating_add(1);
                self.col = 1;
            } else {
                self.col = self.col.saturating_add(1);
            }
            assert(self@.rest =~= old(self)@.rest.drop_first());
        }
    }

    /// Go past the next character.
    fn advance(&mut self)
        requires
            old(self)@.rest.len() > 0,
        ensures
            final(self).source() == old(self).source(),
            final(self)@ == old(self)@.advanced(),
    {
        let n: usize = self.chars.len();
        assert(self.place < n);
        let c: char = self.chars[self.place];
        self.place = self.place + 1;
        self.taken = 0;
        if c == '\n' {
            self.line = self.line.saturating_add(1);
            self.col = 1;
        } else {
            self.col = self.col.saturating_add(width_of(c));
        }
        assert(self@.rest =~= old(self)@.rest.drop_first());
    }

    /// Go to the end of the line.
    fn skip_line(&mut self)
        ensures
            final(self).place == old(self).place + line_len(old(self)@.rest),
            final(self).source() == old(self).source(),
            final(self)@ == old(self)@.along(
                line_len(old(self)@.rest),
                bytes_of(old(self)@.rest.take(line_len(old(self)@.rest) as int)),
            ),
    {
        let ghost l = self@;
        let ghost total = line_len(l.rest);
        let ghost mut k: nat = 0;
        proof {
            lemma_line_len(l.rest);
            assert(l.rest.skip(0) =~= l.rest);
            assert(l.rest.take(0) =~= Seq::empty());
        }
        while self.place < self.chars.len() && self.chars[self.place] != '\n'
            invariant
                k <= total,
                l == old(self)@,
                self.place == old(self).place + k,
                total == line_len(l.rest),
                total <= l.rest.len(),
                self.chars == old(self).chars,
                self@ == l.along(k, bytes_of(l.rest.take(k as int))),
                total == k + line_len(l.rest.skip(k as int)),
            decreases self.chars@.len() - self.place,
        {
            let c: char = self.chars[self.place];
            proof {
                let r = l.rest.skip(k as int);
                assert(r == self@.rest);
                assert(r[0] == c);
                assert(r.drop_first() =~= l.rest.skip((k + 1) as int));
                lemma_bytes_push(l.rest.take(k as int), c);
                assert(l.rest.take((k + 1) as int) =~= l.rest.take(k as int).push(c));
            }
            self.place = self.place + 1;
            self.taken = 0;
            self.col = self.col.saturating_add(width_of(c));
            proof {
                k = k + 1;
                assert(self@.rest =~= l.rest.skip(k as int));
            }
        }
        proof {
            let r = l.rest.skip(k as int);
            assert(r == self@.rest);
            assert(line_len(r) == 0);
        }
    }

    /// Go to the next token.
    pub fn skip(&mut self)
        ensures
            final(self).source() == old(self).source(),
            final(self)@ == old(self)@.skipped(),
    {
        let ghost l = self@;
        loop
            invariant
                l.skipped() == self@.skipped(),
                self.source() == old(self).source(),
            ensures
                self@ == l.skipped(),
            decreases self@.rest.len(),
        {
            match self.next_char() {
                None => {
                    break;
                },
                Some(c) => {
                    if blank(c) {
                        self.advance();
                    } else if c == ';' {
                        proof {
                            lemma_line_len(self@.rest);
                        }
                        self.skip_line();
                    } else {
                        break;
                    }
                },
            }
        }
    }

    /// Whether only blanks and comments are left.
    pub fn is_eof(&mut self) -> (b: bool)
        ensures
            final(self)@ == old(self)@.skipped(),
            b == (final(self)@.rest.len() == 0),
    {
        self.skip();
        self.next_char().is_none()
    }

    /// The first byte of the next token.
    pub fn peek_byte(&mut self) -> (r: Option<u8>)
        ensures
            final(self)@ == old(self)@.skipped(),
            match r {
                Some(b) => final(self)@.at_byte(b),
                None => final(self)@.rest.len() == 0,
            },
    {
        self.skip();
        self.next_byte()
    }

    /// Whether the next token is the character `c`, which has one byte.
    pub(crate) fn peek_is(&mut self, c: char) -> (b: bool)
        requires
            byte_count(c) == 1,
        ensures
            final(self).source() == old(self).source(),
            final(self)@ == old(self)@.skipped(),
            b == final(self)@.at(c),
    {
        self.skip();
        match self.next_char() {
            Some(d) => d == c,
            None => false,
        }
    }

    /// Take the character `c`, which has one byte, if it is the next token.
    pub(crate) fn take(&mut self, c: char) -> (r: bool)
        requires
            byte_count(c) == 1,
        ensures
            (r, final(self)@) == try_char(old(self)@, c),
    {
        if self.peek_is(c) {
            self.advance();
            true
        } else {
            false
        }
    }

    /// Whether the next token starts with the byte `b`.
    fn peek_is_byte(&mut self, b: u8) -> (r: bool)
        ensures
            final(self)@ == old(self)@.skipped(),
            r == final(self)@.at_byte(b),
            b < 0x80 ==> r == final(self)@.at(b as char),
            b < 0x80 && r ==> final(self)@.stepped() == final(self)@.advanced(),
    {
        let r: bool = match self.peek_byte() {
            Some(x) => x == b,
            None => false,
        };
        proof {
            if b < 0x80 && self@.rest.len() > 0 {
                lemma_byte_of(self@.rest[0], self@.taken, b);
            }
        }
        r
    }

    /// Take the byte `b`, if the next token starts with it.
    pub fn try_byte(&mut self, b: u8) -> (r: bool)
        ensures
            (r, final(self)@) == try_one_byte(old(self)@, b),
            b < 0x80 ==> (r, final(self)@) == try_char(old(self)@, b as char),
    {
        if self.peek_is_byte(b) {
            self.step();
            true
        } else {
            false
        }
    }

    /// Read a word.
    pub fn read_ident(&mut self) -> (r: Result<String, ParseError>)
        ensures
            final(self).source() == old(self).source(),
            gives_view(r, final(self)@, get_ident(old(self)@)),
            r is Err ==> final(self)@ == old(self)@.skipped(),
    {
        self.skip();
        let ghost l = self@;
        match self.next_char() {
            None => {
                return Err(ParseError::UnexpectedEof);
            },
            Some(c) => {
                if !letter(c) && c != '_' {
                    let mut got: String = String::new();
                    push_char_text(&mut got, "'", self.next_byte_char(), "'");
                    proof {
                        reveal_strlit("'");
                        assert(got@ =~= seq!['\'', l.next_byte(), '\'']);
                    }
                    return Err(
                        ParseError::UnexpectedToken { line: self.line, col: self.col, got },
                    );
                }
            },
        }
        let start: usize = self.place;
        let ghost cs = self.chars;
        let ghost mut k: nat = 0;
        let ghost total = word_len(l.rest);
        proof {
            lemma_word_len(l.rest);
            assert(l.rest.skip(0) =~= l.rest);
        }
        while self.place < self.chars.len() && (letter(self.chars[self.place]) || decimal(
            self.chars[self.place],
        ) || self.chars[self.place] == '_' || self.chars[self.place] == '-')
            invariant
                k <= total,
                total == word_len(l.rest),
                total <= l.rest.len(),
                self.chars == cs,
                start + k == self.place,
                start <= self.chars@.len(),
                l.rest == self.chars@.skip(start as int),
                self@ == l.along(k, k),
                total == k + word_len(l.rest.skip(k as int)),
            decreases self.chars@.len() - self.place,
        {
            proof {
                let r = l.rest.skip(k as int);
                assert(r == self@.rest);
                assert(r.drop_first() =~= l.rest.skip((k + 1) as int));
            }
            self.place = self.place + 1;
            self.taken = 0;
            self.col = self.col.saturating_add(1);
            proof {
                k = k + 1;
                assert(self@.rest =~= l.rest.skip(k as int));
            }
        }
        proof {
            let r = l.rest.skip(k as int);
            assert(r == self@.rest);
            assert(word_len(r) == 0);
            assert(self.chars@.subrange(start as int, self.place as int) =~= l.rest.take(k as int));
        }
        Ok(string_of(&self.chars, start, self.place))
    }

    /// Read a number of at most `max`.
    fn read_number(&mut self, max: u128) -> (r: Result<u128, ParseError>)
        ensures
            match get_number(old(self)@, max as nat) {
                Ok((v, m)) => r matches Ok(x) && x == v && final(self)@ == m,
                Err(e) => r matches Err(x) && x@ == e && final(self)@ == number_stop(old(self)@),
            },
    {
        self.skip();
        let ghost l = self@;
        let start: usize = self.place;
        let ghost cs = self.chars;
        let mut hex: bool = false;
        if self.place < self.chars.len() && self.chars.len() - self.place > 1
            && self.chars[self.place] == '0' && (self.chars[self.place + 1] == 'x'
            || self.chars[self.place + 1] == 'X') {
            hex = true;
            self.place = self.place + 2;
            self.taken = 0;
            self.col = self.col.saturating_add(2);
        }
        let first: usize = self.place;
        let ghost base = self@;
        let ghost mut k: nat = 0;
        let ghost pre: nat = if hex {
            2
        } else {
            0
        };
        let ghost total = hex_len(base.rest);
        proof {
            assert(base.rest =~= l.rest.skip(pre as int));
            assert(hex == has_hex_prefix(l.rest));
            lemma_hex_len(base.rest);
            assert(base.rest.skip(0) =~= base.rest);
            assert(base.rest == l.rest || hex) by {
                assert(l.rest.skip(0) =~= l.rest);
            }
        }
        while self.place < self.chars.len() && hexadecimal(self.chars[self.place])
            invariant
                k <= total,
                total == hex_len(base.rest),
                total <= base.rest.len(),
                self.chars == cs,
                first + k == self.place,
                first <= self.chars@.len() || base.rest.len() == 0,
                base.rest == if first <= self.chars@.len() {
                    self.chars@.skip(first as int)
                } else {
                    Seq::empty()
                },
                self@ == base.along(k, k),
                total == k + hex_len(base.rest.skip(k as int)),
            decreases self.chars@.len() - self.place,
        {
            proof {
                let r = base.rest.skip(k as int);
                assert(r == self@.rest);
                assert(r.drop_first() =~= base.rest.skip((k + 1) as int));
            }
            self.place = self.place + 1;
            self.taken = 0;
            self.col = self.col.saturating_add(1);
            proof {
                k = k + 1;
                assert(self@.rest =~= base.rest.skip(k as int));
            }
        }
        proof {
            let r = base.rest.skip(k as int);
            assert(r == self@.rest);
            assert(hex_len(r) == 0);
            assert(number_len(l.rest) == pre + k);
            assert(self@.rest =~= l.rest.skip((pre + k) as int));
            assert(self@ == l.along((pre + k) as nat, (pre + k) as nat));
        }
        if self.place == first {
            return Err(ParseError::UnexpectedEof);
        }
        let ghost raw = l.rest.take((pre + k) as int);
        proof {
            assert(self.chars@.subrange(start as int, self.place as int) =~= raw);
            assert(self.chars@.subrange(first as int, self.place as int) =~= raw.skip(pre as int));
            assert(has_hex_prefix(raw) == hex) by {
                if !hex && has_hex_prefix(raw) {
                    assert(raw[0] == l.rest[0]);
                    assert(raw[1] == l.rest[1]);
                }
                if hex {
                    assert(raw[0] == l.rest[0]);
                    assert(raw[1] == l.rest[1]);
                }
            }
            if !hex {
                assert(raw.skip(0) =~= raw);
            }
            assert forall|i: int| first <= i < self.place implies is_hex_digit(
                #[trigger] self.chars@[i],
            ) by {
                assert(self.chars@[i] == base.rest[i - first]);
            }
        }
        let v: Option<u128> = digits_value(
            &self.chars,
            first,
            self.place,
            if hex {
                16
            } else {
                10
            },
            max,
        );
        match v {
            Some(n) => Ok(n),
            None => Err(ParseError::InvalidInt(string_of(&self.chars, start, self.place))),
        }
    }

    /// Read a 32-bit number.
    pub fn read_u32(&mut self) -> (r: Result<u32, ParseError>)
        ensures
            gives(r, final(self)@, get_u32(old(self)@)),
            r is Err ==> final(self)@ == number_stop(old(self)@),
    {
        match self.read_number(u32::MAX as u128) {
            Ok(n) => Ok(n as u32),
            Err(e) => Err(e),
        }
    }

    /// Read a 32-bit number, as a size.
    pub fn read_usize(&mut self) -> (r: Result<usize, ParseError>)
        ensures
            gives(r, final(self)@, get_usize(old(self)@)),
            r is Err ==> final(self)@ == number_stop(old(self)@),
    {
        match self.read_number(u32::MAX as u128) {
            Ok(n) => Ok(n as usize),
            Err(e) => Err(e),
        }
    }

    /// Read a 64-bit number.
    pub fn read_u64(&mut self) -> (r: Result<u64, ParseError>)
        ensures
            gives(r, final(self)@, get_u64(old(self)@)),
            r is Err ==> final(self)@ == number_stop(old(self)@),
    {
        match self.read_number(u64::MAX as u128) {
            Ok(n) => Ok(n as u64),
            Err(e) => Err(e),
        }
    }

    /// Read a 128-bit number.
    pub fn read_u128(&mut self) -> (r: Result<u128, ParseError>)
        ensures
            gives(r, final(self)@, get_u128(old(self)@)),
            r is Err ==> final(self)@ == number_stop(old(self)@),
    {
        self.read_number(u128::MAX)
    }

    /// Take the byte `expected`.
    pub fn expect_byte(&mut self, expected: u8) -> (r: Result<(), ParseError>)
        ensures
            gives(r, final(self)@, get_byte(old(self)@, expected)),
            expected < 0x80 ==> gives(r, final(self)@, get_char(old(self)@, expected as char)),
            r is Err ==> final(self)@ == old(self)@.skipped(),
    {
        if self.peek_is_byte(expected) {
            self.step();
            Ok(())
        } else {
            Err(self.unexpected(expected as char))
        }
    }

    /// The error where the character `c` was expected.
    fn unexpected(&self, c: char) -> (e: ParseError)
        ensures
            e@ == self@.error(
                "expected '"@ + seq![c] + "', got '"@ + seq![self@.next_byte()] + "'"@,
            ),
    {
        let mut got: String = String::new();
        push_char_text(&mut got, "expected '", c, "', got '");
        push_char_text(&mut got, "", self.next_byte_char(), "'");
        proof {
            reveal_strlit("");
            assert(got@ =~= "expected '"@ + seq![c] + "', got '"@ + seq![self@.next_byte()]
                + "'"@);
        }
        ParseError::UnexpectedToken { line: self.line, col: self.col, got }
    }

    /// Take the character `c`, which has one byte.
    pub(crate) fn expect(&mut self, c: char) -> (r: Result<(), ParseError>)
        requires
            byte_count(c) == 1,
        ensures
            gives(r, final(self)@, get_char(old(self)@, c)),
            r is Err ==> final(self)@ == old(self)@.skipped(),
    {
        if self.peek_is(c) {
            self.advance();
            Ok(())
        } else {
            Err(self.unexpected(c))
        }
    }

    /// Take the characters of `expected`. The place is not within a character.
    pub fn expect_str(&mut self, expected: &str) -> (r: Result<(), ParseError>)
        requires
            old(self)@.taken == 0,
        ensures
            gives(r, final(self)@, get_str(old(self)@, expected@)),
            r is Err ==> final(self)@ == old(self)@.skipped(),
    {
        self.skip();
        let ghost l = self@;
        let want: Vec<char> = chars_of(expected);
        let mut i: usize = 0;
        let mut same: bool = true;
        while i < want.len() && same
            invariant
                i <= want@.len(),
                same ==> i <= l.rest.len() && want@.take(i as int) == l.rest.take(i as int),
                !same ==> !want@.is_prefix_of(l.rest),
                want@ == expected@,
                self@ == l,
            decreases want@.len() - i + (if same {
                1int
            } else {
                0
            }),
        {
            if self.place < self.chars.len() && i < self.chars.len() - self.place && self.chars[
                self.place + i] == want[i] {
                proof {
                    assert(l.rest[i as int] == want@[i as int]);
                    assert(want@.take(i + 1) =~= want@.take(i as int).push(want@[i as int]));
                    assert(l.rest.take(i + 1) =~= l.rest.take(i as int).push(l.rest[i as int]));
                }
                i += 1;
            } else {
                proof {
                    if want@.is_prefix_of(l.rest) {
                        assert(l.rest[i as int] == want@[i as int]) by {
                            assert(want@ == l.rest.take(want@.len() as int));
                        }
                        assert(false);
                    }
                }
                same = false;
            }
        }
        if same {
            proof {
                assert(want@.take(want@.len() as int) =~= want@);
                assert(want@.is_prefix_of(l.rest));
            }
            let mut k: usize = 0;
            while k < want.len()
                invariant
                    k <= want@.len(),
                    want@.len() - k <= self@.rest.len(),
                    advanced_by(l, want@.len()) == advanced_by(
                        self@,
                        (want@.len() - k) as nat,
                    ),
                decreases want@.len() - k,
            {
                self.advance();
                k += 1;
            }
            return Ok(());
        }
        let end: usize = if self.place >= self.chars.len() {
            self.place
        } else if self.chars.len() - self.place > 16 {
            self.place + 16
        } else {
            self.chars.len()
        };
        let got: String = if self.place < self.chars.len() {
            string_of(&self.chars, self.place, end)
        } else {
            String::new()
        };
        proof {
            assert(got@ =~= if l.rest.len() > 16 {
                l.rest.take(16)
            } else {
                l.rest
            });
        }
        let message: String = mismatch_message(
            &debug_string(&expected.to_owned()),
            &debug_string(&got),
        );
        Err(ParseError::UnexpectedToken { line: self.line, col: self.col, got: message })
    }

    /// Read the key `expected` of a field, and the sign behind it.
    pub fn expect_key(&mut self, expected: &str) -> (r: Result<(), ParseError>)
        ensures
            gives(r, final(self)@, get_key(old(self)@, expected@)),
            r is Err ==> final(self)@ == key_stop(old(self)@, expected@),
    {
        match self.read_ident() {
            Ok(k) => {
                if !is_word(&k, expected) {
                    return Err(ParseError::MissingField(expected.to_owned()));
                }
                self.expect('=')
            },
            Err(e) => Err(e),
        }
    }

    /// Read the word `kw`.
    pub fn read_ident_kw(&mut self, kw: &str) -> (r: Result<(), ParseError>)
        ensures
            gives(r, final(self)@, get_word(old(self)@, kw@)),
            r is Err ==> final(self)@ == word_stop(old(self)@),
    {
        match self.read_ident() {
            Ok(got) => {
                if !is_word(&got, kw) {
                    return Err(
                        ParseError::UnexpectedToken { line: self.line, col: self.col, got },
                    );
                }
                Ok(())
            },
            Err(e) => Err(e),
        }
    }

    /// Take the word `kw`, if it is the next token.
    pub fn try_keyword(&mut self, kw: &str) -> (r: bool)
        ensures
            (r, final(self)@) == try_word(old(self)@, kw@),
    {
        let (place, taken, line, col) = (self.place, self.taken, self.line, self.col);
        let ghost l = self@;
        match self.read_ident() {
            Ok(got) => {
                if is_word(&got, kw) {
                    return true;
                }
            },
            Err(_) => {},
        }
        self.place = place;
        self.taken = taken;
        self.line = line;
        self.col = col;
        assert(self@ == l);
        false
    }

    /// Take a comma, if it is the next token and the character `c`, which has one
    /// byte, comes behind it.
    pub(crate) fn try_comma_before(&mut self, c: char) -> (r: bool)
        requires
            byte_count(c) == 1,
        ensures
            (r, final(self)@) == try_comma(old(self)@, c),
    {
        if !self.peek_is(',') {
            return false;
        }
        let (place, taken, line, col) = (self.place, self.taken, self.line, self.col);
        let ghost l = self@;
        self.advance();
        if self.peek_is(c) {
            return true;
        }
        self.place = place;
        self.taken = taken;
        self.line = line;
        self.col = col;
        assert(self@ == l);
        false
    }

    /// Read a quoted text.
    pub fn read_string(&mut self) -> (r: Result<String, ParseError>)
        ensures
            gives_view(r, final(self)@, get_string(old(self)@)),
            r is Err ==> final(self)@ == string_stop(old(self)@),
    {
        match self.expect('"') {
            Ok(_) => {},
            Err(e) => {
                return Err(e);
            },
        }
        let ghost l = self@;
        let mut s: String = String::new();
        loop
            invariant
                get_string(old(self)@) == get_quoted(self@, s@),
                string_stop(old(self)@) == quoted_stop(self@),
            decreases self@.rest.len(),
        {
            match self.next_char() {
                None => {
                    return Err(ParseError::UnexpectedEof);
                },
                Some(c) => {
                    if c == '"' {
                        self.advance();
                        return Ok(s);
                    }
                    if c == '\\' {
                        self.advance();
                        match self.next_char() {
                            None => {
                                return Err(ParseError::UnexpectedEof);
                            },
                            Some(esc) => {
                                self.advance();
                                s.push(
                                    match esc {
                                        'n' => '\n',
                                        't' => '\t',
                                        'r' => '\r',
                                        other => other,
                                    },
                                );
                            },
                        }
                    } else {
                        let ghost m = self@;
                        let n: usize = self.chars.len();
                        assert(self.place < n);
                        self.place = self.place + 1;
                        self.taken = 0;
                        self.col = self.col.saturating_add(1);
                        assert(self@.rest =~= m.rest.skip(1));
                        s.push(c);
                    }
                },
            }
        }
    }

    /// Read a variable: its number behind the letter v.
    pub fn read_var(&mut self) -> (r: Result<u32, ParseError>)
        ensures
            gives(r, final(self)@, get_var(old(self)@)),
            r is Err ==> final(self)@ == var_stop(old(self)@),
    {
        self.skip();
        match self.next_char() {
            None => Err(ParseError::UnexpectedEof),
            Some(c) => {
                if c != 'v' {
                    let mut got: String = String::new();
                    push_char_text(&mut got, "expected 'v<N>', got '", self.next_byte_char(), "'");
                    proof {
                        assert(got@ =~= "expected 'v<N>', got '"@ + seq![self@.next_byte()]
                            + "'"@);
                    }
                    return Err(
                        ParseError::UnexpectedToken { line: self.line, col: self.col, got },
                    );
                }
                self.advance();
                self.read_u32()
            },
        }
    }

    /// Read a list of variables or numbers between two characters.
    fn read_list(&mut self, var: bool, open: char, close: char) -> (r: Result<
        Vec<u32>,
        ParseError,
    >)
        requires
            byte_count(open) == 1,
            byte_count(close) == 1,
        ensures
            gives_view(r, final(self)@, get_list(old(self)@, var, open, close)),
            r is Err ==> final(self)@ == list_stop(old(self)@, var, open, close),
    {
        match self.expect(open) {
            Ok(_) => {},
            Err(e) => {
                return Err(e);
            },
        }
        let ghost whole = get_list(old(self)@, var, open, close);
        let mut out: Vec<u32> = Vec::new();
        assert(out@ =~= Seq::empty());
        loop
            invariant
                byte_count(close) == 1,
                whole == get_list(old(self)@, var, open, close),
                whole == get_items(self@, var, close, out@),
                list_stop(old(self)@, var, open, close) == items_stop(self@, var, close),
            decreases self@.rest.len(),
        {
            broadcast use group_shrinks;

            if self.take(close) {
                return Ok(out);
            }
            let item: Result<u32, ParseError> = if var {
                self.read_var()
            } else {
                self.read_u32()
            };
            match item {
                Ok(n) => {
                    out.push(n);
                },
                Err(e) => {
                    return Err(e);
                },
            }
            if !self.take(',') {
                match self.expect(close) {
                    Ok(_) => {
                        return Ok(out);
                    },
                    Err(e) => {
                        return Err(e);
                    },
                }
            }
        }
    }

    /// Read a list of numbers in square brackets.
    pub fn read_u32_list(&mut self) -> (r: Result<Vec<u32>, ParseError>)
        ensures
            gives_view(r, final(self)@, get_list(old(self)@, false, '[', ']')),
            r is Err ==> final(self)@ == list_stop(old(self)@, false, '[', ']'),
    {
        self.read_list(false, '[', ']')
    }

    /// Read a list of numbers in braces.
    pub fn read_u32_set(&mut self) -> (r: Result<Vec<u32>, ParseError>)
        ensures
            gives_view(r, final(self)@, get_list(old(self)@, false, '{', '}')),
            r is Err ==> final(self)@ == list_stop(old(self)@, false, '{', '}'),
    {
        self.read_list(false, '{', '}')
    }

    /// Read a list of variables in square brackets.
    pub fn read_var_list(&mut self) -> (r: Result<Vec<u32>, ParseError>)
        ensures
            gives_view(r, final(self)@, get_list(old(self)@, true, '[', ']')),
            r is Err ==> final(self)@ == list_stop(old(self)@, true, '[', ']'),
    {
        self.read_list(true, '[', ']')
    }

    /// Read what is left of the line. The place is not within a character.
    pub fn read_to_newline(&mut self) -> (r: String)
        requires
            old(self)@.taken == 0,
        ensures
            r@ == old(self)@.rest.take(line_len(old(self)@.rest) as int),
            final(self)@ == old(self)@.along(line_len(old(self)@.rest), bytes_of(r@)),
    {
        let start: usize = self.place;
        let ghost l = self@;
        proof {
            lemma_line_len(l.rest);
        }
        self.skip_line();
        if start >= self.chars.len() {
            let r = String::new();
            assert(r@ =~= l.rest.take(0));
            return r;
        }
        assert(self.chars@.subrange(start as int, self.place as int) =~= l.rest.take(
            line_len(l.rest) as int,
        ));
        string_of(&self.chars, start, self.place)
    }
}

} // verus!
