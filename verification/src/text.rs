//! Text for readers: building strings character by character.

use vstd::prelude::*;

verus! {

/// `String::push` of std: appends the character `c` to the end of the string.
#[verifier::external_body]
pub(crate) fn push_char(s: &mut String, c: char)
    ensures
        final(s)@ == old(s)@.push(c),
{
    s.push(c)
}

/// The character of the decimal digit `d`.
pub open spec fn digit_char(d: int) -> char {
    (0x30 + d) as char
}

/// The decimal form of `n`, without leading zeros.
pub open spec fn decimal(n: nat) -> Seq<char>
    decreases n,
{
    if n < 10 {
        seq![digit_char(n as int)]
    } else {
        decimal(n / 10).push(digit_char((n % 10) as int))
    }
}

/// Appends the decimal form of `v`.
pub fn push_decimal(out: &mut String, v: u32)
    ensures
        final(out)@ == old(out)@ + decimal(v as nat),
    decreases v,
{
    if v >= 10 {
        push_decimal(out, v / 10);
    }
    let d: u8 = (v % 10) as u8;
    push_char(out, (0x30 + d) as char);
    proof {
        if v >= 10 {
            assert(out@ =~= old(out)@ + decimal((v / 10) as nat).push(digit_char((v % 10) as int)));
        } else {
            assert(out@ =~= old(out)@ + seq![digit_char(v as int)]);
        }
    }
}

/// The decimal forms of the values, separated by a comma and a space.
pub open spec fn listing(values: Seq<u32>) -> Seq<char>
    decreases values.len(),
{
    if values.len() == 0 {
        Seq::empty()
    } else if values.len() == 1 {
        decimal(values[0] as nat)
    } else {
        listing(values.drop_last()) + seq![',', ' '] + decimal(values.last() as nat)
    }
}

} // verus!
