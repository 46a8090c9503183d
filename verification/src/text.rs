//! The text of numbers and shapes as it stands in messages.

use vstd::prelude::*;
use vstd::string::StringExecFns;

verus! {

/// `String::push`: the text with one more character at its end.
#[verifier::external_body]
pub(crate) fn push_char(text: &mut String, c: char)
    ensures
        final(text)@ == old(text)@.push(c),
{
    text.push(c)
}

/// The text of one decimal digit.
pub open spec fn digit_text(d: nat) -> Seq<char> {
    if d == 0 {
        "0"@
    } else if d == 1 {
        "1"@
    } else if d == 2 {
        "2"@
    } else if d == 3 {
        "3"@
    } else if d == 4 {
        "4"@
    } else if d == 5 {
        "5"@
    } else if d == 6 {
        "6"@
    } else if d == 7 {
        "7"@
    } else if d == 8 {
        "8"@
    } else {
        "9"@
    }
}

/// The decimal text of a number, without leading zeros.
pub open spec fn decimal(n: nat) -> Seq<char>
    decreases n,
{
    if n < 10 {
        digit_text(n)
    } else {
        decimal(n / 10) + digit_text(n % 10)
    }
}

/// The text of one digit to the base sixteen, the digits beyond nine in
/// small letters.
pub open spec fn hex_digit_text(d: nat) -> Seq<char> {
    if d < 10 {
        digit_text(d)
    } else if d == 10 {
        "a"@
    } else if d == 11 {
        "b"@
    } else if d == 12 {
        "c"@
    } else if d == 13 {
        "d"@
    } else if d == 14 {
        "e"@
    } else {
        "f"@
    }
}

/// The text of a number to the base sixteen, without leading zeros.
pub open spec fn hex(n: nat) -> Seq<char>
    decreases n,
{
    if n < 16 {
        hex_digit_text(n)
    } else {
        hex(n / 16) + hex_digit_text(n % 16)
    }
}

/// The dimensions of a shape, each in decimal, with ` × ` between them.
pub open spec fn joined_dims(dims: Seq<usize>) -> Seq<char>
    decreases dims.len(),
{
    if dims.len() == 0 {
        Seq::empty()
    } else if dims.len() == 1 {
        decimal(dims[0] as nat)
    } else {
        joined_dims(dims.drop_last()) + " × "@ + decimal(dims.last() as nat)
    }
}

/// The text of a shape: its dimensions between square brackets.
pub open spec fn shape_text(dims: Seq<usize>) -> Seq<char> {
    "["@ + joined_dims(dims) + "]"@
}

fn digit_str(d: usize) -> (s: &'static str)
    requires
        d < 10,
    ensures
        s@ == digit_text(d as nat),
{
    if d == 0 {
        "0"
    } else if d == 1 {
        "1"
    } else if d == 2 {
        "2"
    } else if d == 3 {
        "3"
    } else if d == 4 {
        "4"
    } else if d == 5 {
        "5"
    } else if d == 6 {
        "6"
    } else if d == 7 {
        "7"
    } else if d == 8 {
        "8"
    } else {
        "9"
    }
}

/// Writes a number in decimal.
pub fn decimal_string(n: usize) -> (s: String)
    ensures
        s@ == decimal(n as nat),
    decreases n,
{
    if n < 10 {
        String::from_str(digit_str(n))
    } else {
        let mut s = decimal_string(n / 10);
        s.append(digit_str(n % 10));
        s
    }
}

fn hex_digit_str(d: usize) -> (s: &'static str)
    requires
        d < 16,
    ensures
        s@ == hex_digit_text(d as nat),
{
    if d < 10 {
        digit_str(d)
    } else if d == 10 {
        "a"
    } else if d == 11 {
        "b"
    } else if d == 12 {
        "c"
    } else if d == 13 {
        "d"
    } else if d == 14 {
        "e"
    } else {
        "f"
    }
}

/// Writes a number to the base sixteen.
pub fn hex_string(n: usize) -> (s: String)
    ensures
        s@ == hex(n as nat),
    decreases n,
{
    if n < 16 {
        String::from_str(hex_digit_str(n))
    } else {
        let mut s = hex_string(n / 16);
        s.append(hex_digit_str(n % 16));
        s
    }
}

/// Writes a shape: its dimensions between square brackets, ` × ` between
/// two of them.
pub fn shape_string(dims: &[usize]) -> (s: String)
    ensures
        s@ == shape_text(dims@),
{
    let mut s = String::from_str("[");
    let mut i: usize = 0;
    assert(dims@.take(0) =~= Seq::<usize>::empty());
    assert(s@ =~= "["@ + joined_dims(dims@.take(0)));
    while i < dims.len()
        invariant
            i <= dims.len(),
            s@ == "["@ + joined_dims(dims@.take(i as int)),
        decreases dims.len() - i,
    {
        let ghost before = dims@.take(i as int);
        let ghost after = dims@.take(i + 1);
        assert(after.drop_last() =~= before);
        assert(after.last() == dims@[i as int]);
        if i > 0 {
            s.append(" × ");
        }
        let d = decimal_string(dims[i]);
        s.append(d.as_str());
        i += 1;
        assert(s@ =~= "["@ + joined_dims(after));
    }
    assert(dims@.take(i as int) =~= dims@);
    s.append("]");
    s
}

} // verus!
