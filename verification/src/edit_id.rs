//! Edit IDs: 128-bit UUIDs in their hyphenated lower-case text form.

use vstd::prelude::*;
use vstd::arithmetic::power::pow;
use uuid::Uuid;
use crate::text::digit_char;

verus! {

/// The lower-case hexadecimal digit for `d < 16`.
pub open spec fn hex_digit(d: nat) -> char {
    if d < 10 {
        digit_char(d)
    } else {
        ((d - 10 + ('a' as u32)) as u32) as char
    }
}

/// The `k`-th hexadecimal digit of `u`, most significant first.
pub open spec fn nibble(u: u128, k: int) -> nat {
    ((u as int / pow(16, (31 - k) as nat)) % 16) as nat
}

/// The 32 hexadecimal digits of `u`, most significant first.
pub open spec fn uuid_hex(u: u128) -> Seq<char> {
    Seq::new(32, |k: int| hex_digit(nibble(u, k)))
}

/// The hyphenated form `xxxxxxxx-xxxx-xxxx-xxxx-xxxxxxxxxxxx` of `u`.
pub open spec fn uuid_text(u: u128) -> Seq<char> {
    let h = uuid_hex(u);
    h.subrange(0, 8) + seq!['-'] + h.subrange(8, 12) + seq!['-'] + h.subrange(12, 16) + seq!['-']
        + h.subrange(16, 20) + seq!['-'] + h.subrange(20, 32)
}

/// The value that `Uuid::parse_str` reads from `s`, if any.
pub uninterp spec fn uuid_parse(s: Seq<char>) -> Option<u128>;

/// `Uuid::from_u128(id)` printed hyphenated. Claimed: exactly `uuid_text(id)`,
/// the big-endian hexadecimal digits in lower case, grouped 8-4-4-4-12, and
/// `Uuid::parse_str` reads that text back as `id`.
#[verifier::external_body]
fn uuid_to_string(id: u128) -> (s: String)
    ensures
        s@ == uuid_text(id),
        uuid_parse(s@) == Some(id),
{
    Uuid::from_u128(id).hyphenated().to_string()
}

/// `Uuid::parse_str`, read back with `as_u128`. Claimed: the result is the
/// named parse; the hyphenated form of a value reads back as that value;
/// and only a text of 32, 36, 38 or 45 characters parses (the simple,
/// hyphenated, braced and URN forms, all ASCII, so characters and bytes
/// count alike).
#[verifier::external_body]
fn parse_uuid(s: &str) -> (r: Option<u128>)
    ensures
        r == uuid_parse(s@),
        forall|u: u128| s@ == uuid_text(u) ==> r == Some(u),
        r is Some ==> uuid_form_length(s@.len()),
{
    match Uuid::parse_str(s) {
        Ok(u) => Some(u.as_u128()),
        Err(_) => None,
    }
}

/// The hyphenated text of an edit ID.
pub fn edit_id_text(id: u128) -> (s: String)
    ensures
        s@ == uuid_text(id),
        uuid_parse(s@) == Some(id),
{
    uuid_to_string(id)
}

/// The lengths of the text forms of a UUID: simple, hyphenated, braced, URN.
pub open spec fn uuid_form_length(n: nat) -> bool {
    n == 32 || n == 36 || n == 38 || n == 45
}

/// Reads an edit ID from text in any form that `Uuid::parse_str` accepts.
pub fn parse_edit_id(s: &str) -> (r: Option<u128>)
    ensures
        r == uuid_parse(s@),
        forall|u: u128| s@ == uuid_text(u) ==> r == Some(u),
        r is Some ==> uuid_form_length(s@.len()),
{
    parse_uuid(s)
}

} // verus!
