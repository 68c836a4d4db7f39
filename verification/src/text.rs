//! Building the words of a message from its parts.

use vstd::prelude::*;

verus! {

/// One decimal digit as text.
pub open spec fn spec_digit(d: nat) -> Seq<char> {
    if d == 0 {
        "0"@
    } else if d == 1 {
        "1"@
    } else if d == 2 {
        "2"@
    } else if d == 3 {
        "3"@
    } else if d == 4 {
        "4"@
    } else if d == 5 {
        "5"@
    } else if d == 6 {
        "6"@
    } else if d == 7 {
        "7"@
    } else if d == 8 {
        "8"@
    } else {
        "9"@
    }
}

/// A number in decimal, most significant digit first, without leading zeros.
pub open spec fn spec_decimal(n: nat) -> Seq<char>
    decreases n,
{
    if n < 10 {
        spec_digit(n)
    } else {
        spec_decimal(n / 10) + spec_digit(n % 10)
    }
}

/// A truth value as the word `true` or `false`.
pub open spec fn spec_bool_text(b: bool) -> Seq<char> {
    if b {
        "true"@
    } else {
        "false"@
    }
}

fn digit(d: usize) -> (s: &'static str)
    requires
        d < 10,
    ensures
        s@ == spec_digit(d as nat),
{
    if d == 0 {
        "0"
    } else if d == 1 {
        "1"
    } else if d == 2 {
        "2"
    } else if d == 3 {
        "3"
    } else if d == 4 {
        "4"
    } else if d == 5 {
        "5"
    } else if d == 6 {
        "6"
    } else if d == 7 {
        "7"
    } else if d == 8 {
        "8"
    } else {
        "9"
    }
}

/// Writes a number in decimal.
pub fn decimal(n: usize) -> (s: String)
    ensures
        s@ == spec_decimal(n as nat),
{
    let mut rest: usize = n / 10;
    let mut out: String = String::from_str(digit(n % 10));
    assert(Seq::<char>::empty() + out@ =~= out@);
    while rest > 0
        invariant
            spec_decimal(n as nat) == (if rest > 0 {
                spec_decimal(rest as nat)
            } else {
                Seq::<char>::empty()
            }) + out@,
        decreases rest,
    {
        let d = digit(rest % 10);
        let ghost before = out@;
        out = String::from_str(d).concat(out.as_str());
        proof {
            let lead = if rest >= 10 {
                spec_decimal((rest / 10) as nat)
            } else {
                Seq::<char>::empty()
            };
            assert(spec_decimal(rest as nat) =~= lead + d@);
            assert((lead + d@) + before =~= lead + (d@ + before));
        }
        rest = rest / 10;
    }
    assert(Seq::<char>::empty() + out@ =~= out@);
    out
}

/// Whether two strings hold the same characters.
pub fn same_text(a: &String, b: &String) -> (r: bool)
    ensures
        r == (a@ == b@),
{
    *a == *b
}

/// Writes a truth value as a word.
pub fn bool_text(b: bool) -> (s: &'static str)
    ensures
        s@ == spec_bool_text(b),
{
    if b {
        "true"
    } else {
        "false"
    }
}

} // verus!
