//! Numbers as text.

use vstd::prelude::*;

verus! {

/// `String::push` appends one character.
pub assume_specification[ String::push ](s: &mut String, c: char)
    ensures
        final(s)@ == old(s)@.push(c),
;

/// `String::push_str` appends the characters of `t`.
pub assume_specification[ String::push_str ](s: &mut String, t: &str)
    ensures
        final(s)@ == old(s)@ + t@,
;

/// The digit of value `d` in lower case, for a base of at most sixteen.
pub open spec fn digit(d: nat) -> char {
    if d < 10 {
        (48 + d) as char
    } else {
        (87 + d) as char
    }
}

/// The digits of `n` in base `base`, the most significant first.
pub open spec fn digits(n: nat, base: nat) -> Seq<char>
    decreases n,
{
    if base < 2 || n < base {
        seq![digit(n)]
    } else {
        proof {
            assert(n / base < n) by (nonlinear_arith)
                requires
                    n >= base,
                    base >= 2,
            ;
        }
        digits(n / base, base).push(digit(n % base))
    }
}

/// The decimal digits of `n`.
pub open spec fn dec(n: nat) -> Seq<char> {
    digits(n, 10)
}

/// The hexadecimal digits of `n`.
pub open spec fn hex(n: nat) -> Seq<char> {
    digits(n, 16)
}

/// The digit of value `d`.
fn digit_char(d: u8) -> (c: char)
    requires
        d < 16,
    ensures
        c == digit(d as nat),
{
    if d < 10 {
        (48 + d) as char
    } else {
        (87 + d) as char
    }
}

/// Append the digits of `n` in base `base`.
fn push_digits(s: &mut String, n: u128, base: u8)
    requires
        2 <= base <= 16,
    ensures
        final(s)@ == old(s)@ + digits(n as nat, base as nat),
    decreases n,
{
    if n < base as u128 {
        s.push(digit_char(n as u8));
        assert(s@ =~= old(s)@ + seq![digit(n as nat)]);
    } else {
        assert(n / (base as u128) < n) by (nonlinear_arith)
            requires
                n >= base,
                base >= 2,
        ;
        assert(0 <= n % (base as u128) < base) by (nonlinear_arith)
            requires
                base >= 2,
        ;
        push_digits(s, n / base as u128, base);
        s.push(digit_char((n % base as u128) as u8));
        assert(s@ =~= old(s)@ + digits(n as nat, base as nat));
    }
}

/// Append `n` in decimal.
pub fn push_dec(s: &mut String, n: u128)
    ensures
        final(s)@ == old(s)@ + dec(n as nat),
{
    push_digits(s, n, 10);
}

/// Append `n` in hexadecimal.
pub fn push_hex(s: &mut String, n: u128)
    ensures
        final(s)@ == old(s)@ + hex(n as nat),
{
    push_digits(s, n, 16);
}

/// A digit is written as itself; a longer number is all digits but the last,
/// then the last one.
pub proof fn law_decimal(n: nat)
    ensures
        n < 10 ==> dec(n) == "0123456789"@.subrange(n as int, n as int + 1),
        n >= 10 ==> dec(n) == dec(n / 10) + dec(n % 10),
{
    reveal_strlit("0123456789");
    if n < 10 {
        assert(dec(n) =~= "0123456789"@.subrange(n as int, n as int + 1));
    } else {
        assert(dec(n) =~= dec(n / 10) + dec(n % 10));
    }
}

/// The same in hexadecimal, with letters in lower case.
pub proof fn law_hexadecimal(n: nat)
    ensures
        n < 16 ==> hex(n) == "0123456789abcdef"@.subrange(n as int, n as int + 1),
        n >= 16 ==> hex(n) == hex(n / 16) + hex(n % 16),
{
    reveal_strlit("0123456789abcdef");
    if n < 16 {
        assert(hex(n) =~= "0123456789abcdef"@.subrange(n as int, n as int + 1));
    } else {
        assert(hex(n) =~= hex(n / 16) + hex(n % 16));
    }
}

} // verus!
