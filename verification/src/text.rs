//! Small string utilities used by the lexer, the parser and the printers.
use vstd::prelude::*;
use vstd::string::StringExecFns;

verus! {

/// Appends one character to a `String` (std's `String::push`).
/// Claimed: the new contents are the old contents followed by `ch`.
#[verifier::external_body]
pub(crate) fn push_char(s: &mut String, ch: char)
    ensures
        final(s)@ == old(s)@.push(ch),
{
    s.push(ch);
}

/// Appends a string slice to a `String`.
pub(crate) fn push_str(s: &mut String, t: &str)
    ensures
        final(s)@ == old(s)@ + t@,
{
    s.append(t);
}

/// Compares two string slices for equality (std's `PartialEq for str`).
/// Claimed: the result is true exactly when the two character sequences are equal.
#[verifier::external_body]
pub(crate) fn str_eq(a: &str, b: &str) -> (r: bool)
    ensures
        r == (a@ == b@),
{
    a == b
}

/// Copies a string slice into a new `String`.
pub(crate) fn owned(s: &str) -> (r: String)
    ensures
        r@ == s@,
{
    s.to_owned()
}

/// The decimal digit characters of a natural number, most significant first.
pub open spec fn nat_digits(n: nat) -> Seq<char>
    decreases n,
{
    if n < 10 {
        seq![digit_char(n)]
    } else {
        nat_digits(n / 10).push(digit_char(n % 10))
    }
}

pub open spec fn digit_char(d: nat) -> char {
    ((d + 48) as u32) as char
}

/// The decimal text of an integer, with a leading `-` when it is negative.
pub open spec fn int_text(i: int) -> Seq<char> {
    if i < 0 {
        seq!['-'] + nat_digits((-i) as nat)
    } else {
        nat_digits(i as nat)
    }
}

fn digit(d: u64) -> (c: char)
    requires
        d < 10,
    ensures
        c == digit_char(d as nat),
{
    let v: u8 = (d as u8) + 48;
    v as char
}

/// Appends the decimal digits of `n` to `s`.
pub fn push_u64_digits(s: &mut String, n: u64)
    ensures
        final(s)@ == old(s)@ + nat_digits(n as nat),
    decreases n,
{
    if n < 10 {
        push_char(s, digit(n));
        assert(nat_digits(n as nat) == seq![digit_char(n as nat)]);
    } else {
        push_u64_digits(s, n / 10);
        push_char(s, digit(n % 10));
        assert(old(s)@ + nat_digits(n as nat) =~= old(s)@ + nat_digits((n / 10) as nat) + seq![digit_char((n % 10) as nat)]);
    }
}

/// Appends the decimal text of `i` to `s`.
pub fn push_i64_text(s: &mut String, i: i64)
    ensures
        final(s)@ == old(s)@ + int_text(i as int),
{
    if i < 0 {
        push_char(s, '-');
        let m: u64 = if i == i64::MIN { 9223372036854775808u64 } else { (-i) as u64 };
        push_u64_digits(s, m);
        assert(old(s)@ + int_text(i as int) =~= old(s)@.push('-') + nat_digits(m as nat));
    } else {
        push_u64_digits(s, i as u64);
    }
}

/// The decimal text of a signed integer.
pub fn i64_text(i: i64) -> (r: String)
    ensures
        r@ == int_text(i as int),
{
    let mut s = String::new();
    push_i64_text(&mut s, i);
    assert(s@ =~= int_text(i as int));
    s
}

} // verus!
