//! Identifiers of requests, events and extension generations.
//!
//! An identifier is the 128-bit number of a UUID, most significant byte first.

use vstd::prelude::*;

use crate::encoding;

verus! {

/// Whether a number is that of a random (version 4) UUID.
pub open spec fn is_random_uuid(id: u128) -> bool {
    &&& (id as int / 0x1000_0000_0000_0000_0000int) % 16 == 4
    &&& (id as int / 0x4000_0000_0000_0000int) % 4 == 2
}

/// `uuid::Uuid::new_v4`: a random identifier with the version and variant bits
/// of a version 4 UUID.
#[verifier::external_body]
pub(crate) fn mint_id() -> (id: u128)
    ensures
        is_random_uuid(id),
{
    uuid::Uuid::new_v4().as_u128()
}

/// The digit of an identifier in hexadecimal, counted from the most significant.
pub open spec fn id_digit(id: u128, i: int) -> char {
    encoding::hex_digit((id as int / vstd::arithmetic::power::pow(16, (31 - i) as nat)) % 16)
}

/// An identifier as it is written: 32 hexadecimal digits in groups of eight, four,
/// four, four and twelve.
pub open spec fn id_chars(id: u128) -> Seq<char> {
    Seq::new(
        36,
        |i: int|
            if i == 8 || i == 13 || i == 18 || i == 23 {
                '-'
            } else if i < 8 {
                id_digit(id, i)
            } else if i < 13 {
                id_digit(id, i - 1)
            } else if i < 18 {
                id_digit(id, i - 2)
            } else if i < 23 {
                id_digit(id, i - 3)
            } else {
                id_digit(id, i - 4)
            },
    )
}

/// `uuid::Uuid::from_u128` and the `Display` of a UUID: the digits of the number,
/// in lower case, with hyphens between the groups.
#[verifier::external_body]
pub(crate) fn id_text(id: u128) -> (text: String)
    ensures
        text@ == id_chars(id),
{
    uuid::Uuid::from_u128(id).to_string()
}

} // verus!
