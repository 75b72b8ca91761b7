//! 128-bit identifiers and their canonical text form.
//!
//! An entity or resource identifier is a 128-bit value. Its canonical text
//! form is the usual hyphenated lowercase hexadecimal rendering: 32 hex
//! digits, most significant first, with hyphens after the 8th, 12th, 16th
//! and 20th digit. The rendering and parsing are done by the `uuid` crate;
//! the exact shape of the text is pinned down here so that contracts can
//! speak about it.

use vstd::prelude::*;

verus! {

/// 16 to the power `e`.
pub open spec fn pow16(e: nat) -> nat
    decreases e,
{
    if e == 0 {
        1
    } else {
        16 * pow16((e - 1) as nat)
    }
}

/// The lowercase hexadecimal digit character for `d` (0 to 15).
pub open spec fn hex_digit_char(d: nat) -> char {
    if d == 0 { '0' } else if d == 1 { '1' } else if d == 2 { '2' }
    else if d == 3 { '3' } else if d == 4 { '4' } else if d == 5 { '5' }
    else if d == 6 { '6' } else if d == 7 { '7' } else if d == 8 { '8' }
    else if d == 9 { '9' } else if d == 10 { 'a' } else if d == 11 { 'b' }
    else if d == 12 { 'c' } else if d == 13 { 'd' } else if d == 14 { 'e' }
    else { 'f' }
}

/// The `k`-th hexadecimal digit of `n`, counting from the most significant
/// of 32 digits.
pub open spec fn hex_digit_of(n: u128, k: nat) -> nat {
    ((n as nat) / pow16((31 - k) as nat)) % 16
}

/// How many of the first `i` positions of the canonical text are hyphens.
pub open spec fn hyphens_before(i: nat) -> nat {
    if i <= 8 { 0 } else if i <= 13 { 1 } else if i <= 18 { 2 }
    else if i <= 23 { 3 } else { 4 }
}

/// The canonical text form of a 128-bit identifier: 36 characters,
/// hyphens at positions 8, 13, 18 and 23, lowercase hex digits elsewhere.
pub open spec fn uuid_text_of(n: u128) -> Seq<char> {
    Seq::new(36, |i: int|
        if i == 8 || i == 13 || i == 18 || i == 23 {
            '-'
        } else {
            hex_digit_char(hex_digit_of(n, (i - hyphens_before(i as nat)) as nat))
        })
}

/// Renders an identifier in its canonical text form.
///
/// Relies on `uuid::Uuid::from_u128` (big-endian) and the `Display`
/// rendering of `uuid::Uuid`: lowercase hexadecimal, most significant
/// digit first, hyphens after the 8th, 12th, 16th and 20th digit.
#[verifier::external_body]
pub(crate) fn uuid_to_text(id: u128) -> (r: String)
    ensures
        r@ == uuid_text_of(id),
{
    uuid::Uuid::from_u128(id).to_string()
}

/// Parses identifier text back to the 128-bit value.
///
/// Relies on `uuid::Uuid::parse_str` and `uuid::Uuid::as_u128`: the
/// canonical hyphenated text of an identifier parses back to the same
/// 128-bit value (`parse_str` also accepts some other renderings, so
/// nothing is claimed about inputs that are not canonical text).
#[verifier::external_body]
pub(crate) fn uuid_from_text(s: &str) -> (r: Option<u128>)
    ensures
        forall|n: u128| s@ == uuid_text_of(n) ==> r == Some(n),
{
    match uuid::Uuid::parse_str(s) {
        Ok(u) => Some(u.as_u128()),
        Err(_) => None,
    }
}

} // verus!
