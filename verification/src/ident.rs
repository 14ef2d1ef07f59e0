//! Task identifiers. A task is known by a UUID, held here as its 128 bits;
//! the `uuid` crate reads and writes its text.

use vstd::prelude::*;

verus! {

/// What `uuid::Uuid::parse_str` makes of a text: the 128 bits of the
/// identifier, or nothing where it refuses the text.
pub uninterp spec fn uuid_of_text(text: Seq<char>) -> Option<u128>;

/// The text that the `uuid` crate writes for an identifier.
pub uninterp spec fn text_of_uuid(uuid: u128) -> Seq<char>;

/// Calls `uuid::Uuid::parse_str`. Trusted: the result is what that function
/// gives for this text, taken as 128 bits by `as_u128`.
#[verifier::external_body]
pub(crate) fn parse_uuid(text: &str) -> (r: Option<u128>)
    ensures
        r == uuid_of_text(text@),
{
    match uuid::Uuid::parse_str(text) {
        Ok(u) => Some(u.as_u128()),
        Err(_) => None,
    }
}

/// Calls `to_string` on the `uuid::Uuid` made by `from_u128`. Trusted: the
/// result is the text of that identifier, and `parse_str` reads it back, as
/// the crate documents of every format it writes.
#[verifier::external_body]
pub(crate) fn format_uuid(uuid: u128) -> (r: String)
    ensures
        r@ == text_of_uuid(uuid),
        uuid_of_text(r@) == Some(uuid),
{
    uuid::Uuid::from_u128(uuid).to_string()
}

} // verus!
