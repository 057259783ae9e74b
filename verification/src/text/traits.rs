//! Values that can be written and read as text.

use vstd::prelude::*;

use crate::text::error::{ErrorView, ParseError};
use crate::text::lexer::{bytes_of, is_word, line_len, LexView};

verus! {

/// A value that can be written as text.
pub trait WriteText {
    /// Whether the value can be written.
    spec fn can_write(&self) -> bool;

    /// The text.
    spec fn text(&self) -> Seq<char>;

    /// Append the text.
    fn write_text(&self, w: &mut String)
        requires
            self.can_write(),
        ensures
            final(w)@ == old(w)@ + self.text(),
    ;

    /// The text by itself.
    fn to_text_string(&self) -> (r: String)
        requires
            self.can_write(),
        ensures
            r@ == self.text(),
    {
        let mut s: String = String::new();
        self.write_text(&mut s);
        assert(Seq::<char>::empty() + self.text() =~= self.text());
        s
    }
}

/// A value that can be read from text.
pub trait ParseText: Sized {
    /// Whether reading the text `s` gives `r`.
    spec fn parses(s: Seq<char>, r: Result<Self, ParseError>) -> bool;

    /// Read the text `s`.
    fn parse_text(s: &str) -> (r: Result<Self, ParseError>)
        ensures
            Self::parses(s@, r),
    ;
}

// ---------------------------------------------------------------------------
// Version lines
// ---------------------------------------------------------------------------

/// Whether a character is white space.
pub open spec fn is_space(c: char) -> bool {
    let n = c as u32;
    ||| 0x9 <= n <= 0xd
    ||| n == 0x20
    ||| n == 0x85
    ||| n == 0xa0
    ||| n == 0x1680
    ||| 0x2000 <= n <= 0x200a
    ||| n == 0x2028
    ||| n == 0x2029
    ||| n == 0x202f
    ||| n == 0x205f
    ||| n == 0x3000
}

/// A text without the white space at its ends.
pub open spec fn trimmed(s: Seq<char>) -> Seq<char>
    decreases s.len(),
{
    if s.len() == 0 {
        s
    } else if is_space(s[0]) {
        trimmed(s.drop_first())
    } else if is_space(s.last()) {
        trimmed(s.drop_last())
    } else {
        s
    }
}

/// What is wrong with a version line, if something is. `others` are the starts
/// of the lines of other versions.
pub open spec fn header_error(header: Seq<char>, wanted: Seq<char>, others: Seq<Seq<char>>) -> Option<
    ErrorView,
> {
    if header == wanted {
        None
    } else if exists|i: int|
        0 <= i < others.len() && (#[trigger] others[i]).is_prefix_of(header) {
        Some(ErrorView::UnsupportedVersion(header))
    } else {
        Some(ErrorView::MissingVersionLine)
    }
}

/// The first line without the white space at its ends.
pub open spec fn header_of(s: Seq<char>) -> Seq<char> {
    trimmed(s.take(line_len(s) as int))
}

/// The state behind the first line.
pub open spec fn past_header(s: Seq<char>) -> LexView {
    LexView { rest: s, taken: 0, line: 1, col: 1 }.along(line_len(s), bytes_of(s.take(line_len(s) as int)))
}

fn space(c: char) -> (b: bool)
    ensures
        b == is_space(c),
{
    let n: u32 = c as u32;
    (0x9 <= n && n <= 0xd) || n == 0x20 || n == 0x85 || n == 0xa0 || n == 0x1680 || (0x2000 <= n
        && n <= 0x200a) || n == 0x2028 || n == 0x2029 || n == 0x202f || n == 0x205f || n == 0x3000
}

/// A text without the white space at its ends.
pub fn trim(s: &String) -> (r: String)
    ensures
        r@ == trimmed(s@),
{
    let cs: Vec<char> = crate::text::lexer::chars_of(s.as_str());
    let mut from: usize = 0;
    let mut to: usize = cs.len();
    assert(cs@.subrange(0, to as int) =~= cs@);
    while from < to && space(cs[from])
        invariant
            from <= to,
            to == cs@.len(),
            trimmed(cs@) == trimmed(cs@.subrange(from as int, to as int)),
        decreases to - from,
    {
        let ghost t = cs@.subrange(from as int, to as int);
        assert(t[0] == cs@[from as int]);
        assert(t.drop_first() =~= cs@.subrange(from + 1, to as int));
        from += 1;
    }
    while from < to && space(cs[to - 1])
        invariant
            from <= to,
            to <= cs@.len(),
            from < to ==> !is_space(cs@[from as int]),
            trimmed(cs@) == trimmed(cs@.subrange(from as int, to as int)),
        decreases to - from,
    {
        let ghost t = cs@.subrange(from as int, to as int);
        assert(t[0] == cs@[from as int]);
        assert(t.last() == cs@[to - 1]);
        assert(t.drop_last() =~= cs@.subrange(from as int, to - 1));
        to -= 1;
    }
    proof {
        let t = cs@.subrange(from as int, to as int);
        if from < to {
            assert(t[0] == cs@[from as int]);
            assert(t.last() == cs@[to - 1]);
        }
    }
    crate::text::lexer::string_of(&cs, from, to)
}

/// Whether a text starts with another.
pub fn has_prefix(s: &String, prefix: &str) -> (b: bool)
    ensures
        b == prefix@.is_prefix_of(s@),
{
    let cs: Vec<char> = crate::text::lexer::chars_of(s.as_str());
    let ps: Vec<char> = crate::text::lexer::chars_of(prefix);
    if ps.len() > cs.len() {
        return false;
    }
    let mut i: usize = 0;
    while i < ps.len()
        invariant
            i <= ps@.len() <= cs@.len(),
            cs@ == s@,
            ps@ == prefix@,
            forall|k: int| 0 <= k < i ==> ps@[k] == cs@[k],
        decreases ps@.len() - i,
    {
        if ps[i] != cs[i] {
            assert(prefix@.is_prefix_of(s@) ==> ps@[i as int] == cs@[i as int]) by {
                if prefix@.is_prefix_of(s@) {
                    assert(ps@ == cs@.take(ps@.len() as int));
                }
            }
            return false;
        }
        i += 1;
    }
    assert(ps@ =~= cs@.take(ps@.len() as int));
    true
}

/// Check a version line.
pub fn check_header(header: &String, wanted: &str, others: &Vec<&str>) -> (r: Result<
    (),
    ParseError,
>)
    ensures
        ({
            let wrong = header_error(
                header@,
                wanted@,
                others@.map_values(|s: &str| s@),
            );
            match r {
                Ok(_) => wrong is None,
                Err(e) => wrong == Some(e@),
            }
        }),
{
    if is_word(header, wanted) {
        return Ok(());
    }
    let ghost os = others@.map_values(|s: &str| s@);
    let mut i: usize = 0;
    while i < others.len()
        invariant
            i <= others@.len(),
            os == others@.map_values(|s: &str| s@),
            header@ != wanted@,
            forall|k: int| 0 <= k < i ==> !(#[trigger] os[k]).is_prefix_of(header@),
        decreases others@.len() - i,
    {
        assert(os[i as int] == others@[i as int]@);
        if has_prefix(header, others[i]) {
            return Err(ParseError::UnsupportedVersion(header.clone()));
        }
        i += 1;
    }
    Err(ParseError::MissingVersionLine)
}

} // verus!
