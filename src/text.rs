//! Text the puzzle reads and writes: upper-casing a move script, and numbers
//! written in decimal.
use vstd::prelude::*;

verus! {

/// The upper-case form of `s` by std's Unicode case tables.
pub uninterp spec fn upper_of(s: Seq<char>) -> Seq<char>;

/// Relies on `str::to_uppercase`: the upper-case form of `s`, which depends
/// on the characters of `s` alone.
#[verifier::external_body]
pub(crate) fn uppercase(s: &str) -> (r: String)
    ensures
        r@ == upper_of(s@),
{
    s.to_uppercase()
}

/// The character of decimal digit `d`, for `d < 10`.
pub open spec fn digit(d: nat) -> char {
    if d == 0 {
        '0'
    } else if d == 1 {
        '1'
    } else if d == 2 {
        '2'
    } else if d == 3 {
        '3'
    } else if d == 4 {
        '4'
    } else if d == 5 {
        '5'
    } else if d == 6 {
        '6'
    } else if d == 7 {
        '7'
    } else if d == 8 {
        '8'
    } else {
        '9'
    }
}

/// `v` written in decimal, with no sign, padding or separator.
pub open spec fn decimal(v: nat) -> Seq<char>
    decreases v,
{
    if v < 10 {
        seq![digit(v)]
    } else {
        decimal(v / 10) + seq![digit(v % 10)]
    }
}

/// A span of `ms` milliseconds as `hours:minutes:seconds`, each in decimal
/// without padding; minutes and seconds are what remains below the hour and
/// the minute.
pub open spec fn hms_text(ms: nat) -> Seq<char> {
    decimal(ms / 3_600_000) + seq![':'] + decimal((ms % 3_600_000) / 60_000) + seq![':']
        + decimal((ms % 60_000) / 1_000)
}

/// Relies on `ToString` for `u128`, through its `Display`: the number in
/// decimal, with no sign, padding or separator.
#[verifier::external_body]
pub(crate) fn decimal_string(v: u128) -> (r: String)
    ensures
        r@ == decimal(v as nat),
{
    v.to_string()
}

} // verus!
