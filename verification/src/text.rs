//! Numbers as decimal text.

use vstd::prelude::*;

verus! {

/// The character of the decimal digit `d`.
pub open spec fn digit_char(d: nat) -> char {
    ((48 + d) as u8) as char
}

/// The decimal digits of `n`, most significant first, without leading
/// zeros.
pub open spec fn digits(n: nat) -> Seq<char>
    decreases n,
{
    if n < 10 {
        seq![digit_char(n)]
    } else {
        digits(n / 10).push(digit_char(n % 10))
    }
}

/// `v` in decimal, with a minus sign where it is negative.
pub open spec fn decimal(v: int) -> Seq<char> {
    if v < 0 {
        seq!['-'] + digits((-v) as nat)
    } else {
        digits(v as nat)
    }
}

/// `String::push` of the standard library: the string gains `c` at its end.
#[verifier::external_body]
pub(crate) fn push_char(line: &mut String, c: char)
    ensures
        final(line)@ == old(line)@.push(c),
{
    line.push(c);
}

/// Appends the decimal digits of `n` to `line`.
pub(crate) fn push_digits(line: &mut String, n: u64)
    ensures
        final(line)@ == old(line)@ + digits(n as nat),
    decreases n,
{
    if n >= 10 {
        push_digits(line, n / 10);
    }
    let d: u8 = (n % 10) as u8;
    push_char(line, (48u8 + d) as char);
    assert(line@ =~= old(line)@ + digits(n as nat));
}

/// Appends `v` in decimal to `line`.
pub(crate) fn push_decimal(line: &mut String, v: i64)
    requires
        v > i64::MIN,
    ensures
        final(line)@ == old(line)@ + decimal(v as int),
{
    if v < 0 {
        push_char(line, '-');
        push_digits(line, (-v) as u64);
        assert(line@ =~= old(line)@ + decimal(v as int));
    } else {
        push_digits(line, v as u64);
    }
}

} // verus!
