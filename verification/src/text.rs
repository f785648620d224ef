//! Numbers in texts.
use vstd::prelude::*;
use vstd::string::StringExecFns;

verus! {

/// A digit.
pub open spec fn digit(d: nat) -> Seq<char> {
    if d == 0 {
        "0"@
    } else if d == 1 {
        "1"@
    } else if d == 2 {
        "2"@
    } else if d == 3 {
        "3"@
    } else if d == 4 {
        "4"@
    } else if d == 5 {
        "5"@
    } else if d == 6 {
        "6"@
    } else if d == 7 {
        "7"@
    } else if d == 8 {
        "8"@
    } else {
        "9"@
    }
}

/// A text with a number in decimal behind it.
pub open spec fn with_number(out: Seq<char>, n: nat) -> Seq<char>
    decreases n,
{
    let before = if n < 10 {
        out
    } else {
        with_number(out, n / 10)
    };
    before + digit(n % 10)
}

/// Appends a number in decimal.
pub(crate) fn put_number(out: &mut String, n: u64)
    ensures
        final(out)@ == with_number(old(out)@, n as nat),
    decreases n,
{
    if n >= 10 {
        put_number(out, n / 10);
    }
    let d: u64 = n % 10;
    let piece: &str = if d == 0 {
        "0"
    } else if d == 1 {
        "1"
    } else if d == 2 {
        "2"
    } else if d == 3 {
        "3"
    } else if d == 4 {
        "4"
    } else if d == 5 {
        "5"
    } else if d == 6 {
        "6"
    } else if d == 7 {
        "7"
    } else if d == 8 {
        "8"
    } else {
        "9"
    };
    out.append(piece);
}

} // verus!
