//! The pieces that lines are made of: names, numbers, variables, lists and
//! fields, how they are written, and that reading gives back what was written.

use vstd::prelude::*;

use crate::fmt::{dec, digit, digits, hex};
use crate::text::lexer::{
    all_digits, get_char, get_ident, get_item, get_items, get_list, get_number, get_quoted,
    get_string, has_hex_prefix, hex_len, in_word, is_blank, is_digit, is_hex_digit,
    lemma_skipped_shrinks, starts_word, try_char, value_of, word_len, LexView, Parsed,
};

verus! {

/// Putting texts together does not depend on the order of doing so.
pub broadcast proof fn lemma_joined(a: Seq<char>, b: Seq<char>, c: Seq<char>)
    ensures
        #[trigger] ((a + b) + c) == a + (b + c),
{
    assert((a + b) + c =~= a + (b + c));
}

/// Whether reading gives `v` and leaves `k`.
pub open spec fn reads<T>(p: Parsed<T>, v: T, k: Seq<char>) -> bool {
    p matches Ok((x, m)) && x == v && m.rest == k
}

/// Whether a text starts with a token, if it is not empty.
pub open spec fn at_token(t: Seq<char>) -> bool {
    t.len() == 0 || (!is_blank(t[0]) && t[0] != ';')
}

/// Whether a text starts with a blank.
pub open spec fn at_blank(t: Seq<char>) -> bool {
    t.len() > 0 && is_blank(t[0])
}

/// Whether a number ends before a text.
pub open spec fn ends_number(t: Seq<char>) -> bool {
    t.len() == 0 || !(is_hex_digit(t[0]) || t[0] == 'x' || t[0] == 'X')
}

/// Whether a word ends before a text.
pub open spec fn ends_word(t: Seq<char>) -> bool {
    t.len() == 0 || !in_word(t[0])
}

/// Whether a text is a word.
pub open spec fn is_name(w: Seq<char>) -> bool {
    &&& w.len() > 0
    &&& starts_word(w[0])
    &&& forall|i: int| 0 <= i < w.len() ==> in_word(#[trigger] w[i])
}

/// A token at the start is the next one.
pub proof fn lemma_at_token(l: LexView)
    requires
        at_token(l.rest),
    ensures
        l.skipped() == l,
{
}

/// The token behind one blank is the next one.
pub proof fn lemma_past_blank(l: LexView, c: char, t: Seq<char>)
    requires
        l.rest == seq![c] + t,
        is_blank(c),
        at_token(t),
    ensures
        l.skipped().rest == t,
{
    assert(l.rest[0] == c);
    assert(l.rest.drop_first() =~= t);
    lemma_at_token(l.advanced());
}

// ---------------------------------------------------------------------------
// Words and numbers
// ---------------------------------------------------------------------------

proof fn lemma_word_len_of(w: Seq<char>, k: Seq<char>)
    requires
        forall|i: int| 0 <= i < w.len() ==> in_word(#[trigger] w[i]),
        ends_word(k),
    ensures
        word_len(w + k) == w.len(),
    decreases w.len(),
{
    if w.len() == 0 {
        assert(w + k =~= k);
    } else {
        assert((w + k)[0] == w[0]);
        assert((w + k).drop_first() =~= w.drop_first() + k);
        lemma_word_len_of(w.drop_first(), k);
    }
}

/// A word is read back.
pub proof fn lemma_word(l: LexView, w: Seq<char>, k: Seq<char>)
    requires
        l.skipped().rest == w + k,
        is_name(w),
        ends_word(k),
    ensures
        reads(get_ident(l), w, k),
{
    lemma_word_len_of(w, k);
    assert((w + k)[0] == w[0]);
    assert((w + k).take(w.len() as int) =~= w);
    assert((w + k).skip(w.len() as int) =~= k);
}

/// A character is read back.
pub proof fn lemma_char(l: LexView, c: char, k: Seq<char>)
    requires
        l.skipped().rest == seq![c] + k,
    ensures
        reads(get_char(l, c), (), k),
        try_char(l, c).0,
        try_char(l, c).1.rest == k,
{
    assert((seq![c] + k)[0] == c);
    assert((seq![c] + k).drop_first() =~= k);
}

proof fn lemma_hex_len_of(w: Seq<char>, k: Seq<char>)
    requires
        forall|i: int| 0 <= i < w.len() ==> is_hex_digit(#[trigger] w[i]),
        ends_number(k),
    ensures
        hex_len(w + k) == w.len(),
    decreases w.len(),
{
    if w.len() == 0 {
        assert(w + k =~= k);
    } else {
        assert((w + k)[0] == w[0]);
        assert((w + k).drop_first() =~= w.drop_first() + k);
        lemma_hex_len_of(w.drop_first(), k);
    }
}

/// The digits of a number denote it.
pub proof fn lemma_digits(n: nat, base: nat)
    requires
        base == 10 || base == 16,
    ensures
        digits(n, base).len() > 0,
        forall|i: int| 0 <= i < digits(n, base).len() ==> is_hex_digit(#[trigger] digits(n, base)[i]),
        base == 10 ==> all_digits(digits(n, base)),
        value_of(digits(n, base), base) == n,
    decreases n,
{
    let d = digits(n, base);
    if n < base {
        assert(d =~= Seq::empty().push(digit(n)));
        assert(d.drop_last() =~= Seq::empty());
        assert(value_of(d.drop_last(), base) == 0);
    } else {
        let q = n / base;
        assert(q < n) by (nonlinear_arith)
            requires
                n >= base,
                base >= 2,
                q == n / base,
        ;
        lemma_digits(q, base);
        let r = n % base;
        assert(d.drop_last() =~= digits(q, base));
        assert(q * base + r == n) by (nonlinear_arith)
            requires
                base > 0,
                q == n / base,
                r == n % base,
        ;
        assert forall|i: int| 0 <= i < d.len() implies is_hex_digit(#[trigger] d[i]) by {
            if i < d.len() - 1 {
                assert(d[i] == digits(q, base)[i]);
            }
        }
        if base == 10 {
            assert forall|i: int| 0 <= i < d.len() implies is_digit(#[trigger] d[i]) by {
                if i < d.len() - 1 {
                    assert(d[i] == digits(q, base)[i]);
                }
            }
        }
    }
}

/// A number in decimal is read back.
pub proof fn lemma_dec(l: LexView, n: nat, max: nat, k: Seq<char>)
    requires
        l.skipped().rest == dec(n) + k,
        ends_number(k),
        n <= max,
    ensures
        reads(get_number(l, max), n, k),
        at_token(dec(n) + k),
        !ends_number(dec(n) + k),
        dec(n).len() > 0,
        is_digit(dec(n)[0]),
{
    let d = dec(n);
    lemma_digits(n, 10);
    lemma_hex_len_of(d, k);
    let t = d + k;
    assert(t[0] == d[0]);
    if has_hex_prefix(t) {
        if d.len() == 1 {
            assert(t[1] == k[0]);
        } else {
            assert(t[1] == d[1]);
        }
        assert(false);
    }
    assert(t.take(d.len() as int) =~= d);
    assert(t.skip(d.len() as int) =~= k);
    if has_hex_prefix(d) {
        assert(is_digit(d[1]));
    }
}

/// A number in hexadecimal is read back.
pub proof fn lemma_hex(l: LexView, n: nat, max: nat, k: Seq<char>)
    requires
        l.skipped().rest == seq!['0', 'x'] + (hex(n) + k),
        ends_number(k),
        n <= max,
    ensures
        reads(get_number(l, max), n, k),
{
    let d = hex(n);
    lemma_digits(n, 16);
    lemma_hex_len_of(d, k);
    let t = seq!['0', 'x'] + (d + k);
    assert(t[0] == '0');
    assert(t[1] == 'x');
    assert(t.skip(2) =~= d + k);
    let raw = t.take(2 + d.len() as int);
    assert(raw =~= seq!['0', 'x'] + d);
    assert(raw[0] == '0');
    assert(raw[1] == 'x');
    assert(raw.skip(2) =~= d);
    assert(t.skip(2 + d.len() as int) =~= k);
}

// ---------------------------------------------------------------------------
// Variables and lists
// ---------------------------------------------------------------------------

/// A variable or a number.
pub open spec fn item_text(n: u32, var: bool) -> Seq<char> {
    if var {
        seq!['v'] + dec(n as nat)
    } else {
        dec(n as nat)
    }
}

/// The items of a list from item `i` on, each but the first behind a comma and,
/// in a wide list, a blank.
pub open spec fn items_text(items: Seq<u32>, var: bool, wide: bool, i: int) -> Seq<char>
    decreases items.len() - i,
{
    if i >= items.len() {
        Seq::empty()
    } else {
        (if i == 0 {
            Seq::empty()
        } else if wide {
            seq![',', ' ']
        } else {
            seq![',']
        }) + item_text(items[i], var) + items_text(items, var, wide, i + 1)
    }
}

/// A list.
pub open spec fn list_text(items: Seq<u32>, var: bool, wide: bool, open: char, close: char) -> Seq<
    char,
> {
    seq![open] + items_text(items, var, wide, 0) + seq![close]
}

/// A variable or a number is read back.
pub proof fn lemma_item(l: LexView, n: u32, var: bool, k: Seq<char>)
    requires
        l.skipped().rest == item_text(n, var) + k,
        ends_number(k),
    ensures
        reads(get_item(l, var), n, k),
        item_text(n, var).len() > 0,
        item_text(n, var)[0] == if var {
            'v'
        } else {
            dec(n as nat)[0]
        },
        is_digit(dec(n as nat)[0]),
{
    lemma_digits(n as nat, 10);
    if var {
        let s = l.skipped();
        assert(s.rest =~= seq!['v'] + (dec(n as nat) + k));
        assert(s.rest[0] == 'v');
        assert(s.rest.drop_first() =~= dec(n as nat) + k);
        let m = s.advanced();
        assert((dec(n as nat) + k)[0] == dec(n as nat)[0]);
        lemma_at_token(m);
        lemma_dec(m, n as nat, u32::MAX as nat, k);
    } else {
        lemma_dec(l, n as nat, u32::MAX as nat, k);
    }
}

/// The items of a list from item `i` on are read back.
proof fn lemma_items(
    l: LexView,
    items: Seq<u32>,
    var: bool,
    wide: bool,
    close: char,
    i: int,
    k: Seq<char>,
)
    requires
        0 <= i < items.len(),
        close == ']' || close == '}',
        l.skipped().rest == item_text(items[i], var) + (items_text(items, var, wide, i + 1) + (
        seq![close] + k)),
    ensures
        reads(get_items(l, var, close, items.take(i)), items, k),
    decreases items.len() - i,
{
    let tail = items_text(items, var, wide, i + 1) + (seq![close] + k);
    let (end, l1) = try_char(l, close);
    lemma_digits(items[i] as nat, 10);
    let it = item_text(items[i], var);
    assert((it + tail)[0] == it[0]);
    assert(!end);
    lemma_skipped_shrinks(l);
    lemma_at_token(l1);
    if i + 1 < items.len() {
        assert(tail[0] == ',') by {
            if wide {
                assert(tail =~= seq![','] + (seq![' '] + (item_text(items[i + 1], var) + (items_text(
                    items,
                    var,
                    wide,
                    i + 2,
                ) + (seq![close] + k)))));
            } else {
                assert(tail =~= seq![','] + (item_text(items[i + 1], var) + (items_text(
                    items,
                    var,
                    wide,
                    i + 2,
                ) + (seq![close] + k))));
            }
        }
        lemma_item(l1, items[i], var, tail);
        let l2 = get_item(l1, var)->Ok_0.1;
        lemma_at_token(l2);
        let next = item_text(items[i + 1], var) + (items_text(items, var, wide, i + 2) + (
        seq![close] + k));
        let rest = if wide {
            seq![' '] + next
        } else {
            next
        };
        assert(tail =~= seq![','] + rest);
        lemma_char(l2, ',', rest);
        let l3 = try_char(l2, ',').1;
        lemma_digits(items[i + 1] as nat, 10);
        assert(next[0] == item_text(items[i + 1], var)[0]);
        if wide {
            lemma_past_blank(l3, ' ', next);
        } else {
            lemma_at_token(l3);
        }
        lemma_items(l3, items, var, wide, close, i + 1, k);
        assert(items.take(i + 1) =~= items.take(i).push(items[i]));
    } else {
        assert(tail =~= seq![close] + k);
        assert(tail[0] == close);
        lemma_item(l1, items[i], var, tail);
        let l2 = get_item(l1, var)->Ok_0.1;
        lemma_at_token(l2);
        let l3 = try_char(l2, ',').1;
        assert(l3 == l2);
        lemma_char(l3, close, k);
        assert(items.take(i).push(items[i]) =~= items);
    }
}

/// A list is read back.
pub proof fn lemma_list(
    l: LexView,
    items: Seq<u32>,
    var: bool,
    wide: bool,
    open: char,
    close: char,
    k: Seq<char>,
)
    requires
        close == ']' || close == '}',
        l.skipped().rest == list_text(items, var, wide, open, close) + k,
    ensures
        reads(get_list(l, var, open, close), items, k),
{
    let all = items_text(items, var, wide, 0);
    let inner = all + (seq![close] + k);
    lemma_joined(seq![open] + all, seq![close], k);
    lemma_joined(seq![open], all, seq![close] + k);
    lemma_char(l, open, inner);
    let m = get_char(l, open)->Ok_0.1;
    if items.len() == 0 {
        assert(inner =~= seq![close] + k);
        lemma_at_token(m);
        lemma_char(m, close, k);
        assert(Seq::<u32>::empty() =~= items);
    } else {
        lemma_digits(items[0] as nat, 10);
        let first = item_text(items[0], var);
        let more = items_text(items, var, wide, 1);
        assert(Seq::<char>::empty() + first =~= first);
        assert(all == first + more);
        lemma_joined(first, more, seq![close] + k);
        assert(inner[0] == first[0]);
        lemma_at_token(m);
        lemma_items(m, items, var, wide, close, 0, k);
        assert(items.take(0) =~= Seq::empty());
    }
}

// ---------------------------------------------------------------------------
// Quoted texts
// ---------------------------------------------------------------------------

/// How a character is written in a quoted text.
pub open spec fn escape(c: char) -> Seq<char> {
    if c == '\\' {
        seq!['\\', '\\']
    } else if c == '"' {
        seq!['\\', '"']
    } else if c == '\n' {
        seq!['\\', 'n']
    } else if c == '\t' {
        seq!['\\', 't']
    } else if c == '\r' {
        seq!['\\', 'r']
    } else {
        seq![c]
    }
}

/// The characters of a text as they are written in a quoted one.
pub open spec fn escaped(s: Seq<char>) -> Seq<char>
    decreases s.len(),
{
    if s.len() == 0 {
        Seq::empty()
    } else {
        escape(s[0]) + escaped(s.drop_first())
    }
}

/// A text in quotes.
pub open spec fn quoted(s: Seq<char>) -> Seq<char> {
    seq!['"'] + escaped(s) + seq!['"']
}

proof fn lemma_escaped(l: LexView, s: Seq<char>, so_far: Seq<char>, k: Seq<char>)
    requires
        l.rest == escaped(s) + (seq!['"'] + k),
    ensures
        reads(get_quoted(l, so_far), so_far + s, k),
    decreases s.len(),
{
    reveal_with_fuel(get_quoted, 2);
    if s.len() == 0 {
        assert(l.rest =~= seq!['"'] + k);
        assert(l.rest[0] == '"');
        assert(l.rest.drop_first() =~= k);
        assert(so_far + s =~= so_far);
    } else {
        let c = s[0];
        let t = escaped(s.drop_first()) + (seq!['"'] + k);
        assert(l.rest =~= escape(c) + t);
        assert(so_far + s =~= so_far.push(c) + s.drop_first());
        if escape(c).len() == 2 {
            assert(l.rest[0] == '\\');
            let m = l.advanced();
            assert(m.rest =~= seq![escape(c)[1]] + t);
            assert(m.rest[0] == escape(c)[1]);
            assert(m.advanced().rest =~= t);
            lemma_escaped(m.advanced(), s.drop_first(), so_far.push(c), k);
        } else {
            assert(l.rest[0] == c);
            assert(l.along(1, 1).rest =~= t);
            lemma_escaped(l.along(1, 1), s.drop_first(), so_far.push(c), k);
        }
    }
}

/// A text in quotes is read back.
pub proof fn lemma_quoted(l: LexView, s: Seq<char>, k: Seq<char>)
    requires
        l.skipped().rest == quoted(s) + k,
    ensures
        reads(get_string(l), s, k),
{
    let t = escaped(s) + (seq!['"'] + k);
    assert(l.skipped().rest =~= seq!['"'] + t);
    lemma_char(l, '"', t);
    let m = get_char(l, '"')->Ok_0.1;
    lemma_escaped(m, s, Seq::empty(), k);
    assert(Seq::<char>::empty() + s =~= s);
}

} // verus!
