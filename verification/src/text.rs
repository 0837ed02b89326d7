//! Text renderings used in progress reports.
use vstd::prelude::*;

verus! {

/// The decimal digit character for `d < 10`.
pub open spec fn digit_char(d: nat) -> char {
    if d == 0 {
        '0'
    } else if d == 1 {
        '1'
    } else if d == 2 {
        '2'
    } else if d == 3 {
        '3'
    } else if d == 4 {
        '4'
    } else if d == 5 {
        '5'
    } else if d == 6 {
        '6'
    } else if d == 7 {
        '7'
    } else if d == 8 {
        '8'
    } else {
        '9'
    }
}

/// The decimal representation of `n`, without leading zeros.
pub open spec fn decimal(n: nat) -> Seq<char>
    decreases n,
{
    if n < 10 {
        seq![digit_char(n)]
    } else {
        decimal(n / 10).push(digit_char(n % 10))
    }
}

/// A stream position rendered as `[bytes.bits]`.
pub open spec fn loc_text(bytes: nat, bits: nat) -> Seq<char> {
    seq!['['] + decimal(bytes) + seq!['.'] + decimal(bits) + seq![']']
}

/// Renders a stream position with `format!`; the result is the two numbers in decimal,
/// separated by a dot and enclosed in square brackets.
#[verifier::external_body]
pub(crate) fn format_loc(bytes: usize, bits: usize) -> (s: String)
    ensures
        s@ == loc_text(bytes as nat, bits as nat),
{
    format!("[{}.{}]", bytes, bits)
}

} // verus!
