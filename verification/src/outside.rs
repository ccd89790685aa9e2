//! The calls into the `uuid` and `chrono` crates, each behind a trusted
//! wrapper whose contract states what the crate documents and what its
//! source shows.

use vstd::prelude::*;

verus! {

/// The lowercase hexadecimal digit for `d` (0 to 15).
pub open spec fn hex_char(d: int) -> char {
    if d < 10 {
        (48 + d) as char
    } else {
        (87 + d) as char
    }
}

/// The 4-bit group number `k` of `id`, counting from the most significant.
pub open spec fn nibble(id: u128, k: int) -> int {
    ((id >> (((31 - k) * 4) as u128)) & 0xfu128) as int
}

/// The hyphens of the 8-4-4-4-12 layout stand at text positions 8, 13, 18
/// and 23; this is the 4-bit group shown at text position `p`.
pub open spec fn nibble_at(p: int) -> int {
    if p < 8 {
        p
    } else if p < 13 {
        p - 1
    } else if p < 18 {
        p - 2
    } else if p < 23 {
        p - 3
    } else {
        p - 4
    }
}

/// The hyphenated lowercase text of a UUID, such as
/// `a1a2a3a4-b1b2-c1c2-d1d2-d3d4d5d6d7d8` for `0xa1a2a3a4b1b2c1c2d1d2d3d4d5d6d7d8`.
pub open spec fn uuid_text(id: u128) -> Seq<char> {
    Seq::new(
        36,
        |p: int|
            if p == 8 || p == 13 || p == 18 || p == 23 {
                '-'
            } else {
                hex_char(nibble(id, nibble_at(p)))
            },
    )
}

/// What `uuid::Uuid::parse_str` gives for a text: the UUID as a 128-bit
/// number, or the text of its error.
pub uninterp spec fn uuid_parse_result(s: Seq<char>) -> Result<u128, Seq<char>>;

/// What `chrono::DateTime::parse_from_rfc3339` gives for a text: the instant
/// written in UTC by `to_rfc3339`, or the text of its error.
pub uninterp spec fn rfc3339_parse_result(s: Seq<char>) -> Result<Seq<char>, Seq<char>>;

/// A successful reading of the time text `t`.
pub open spec fn parsed_text(t: Seq<char>) -> Result<Seq<char>, Seq<char>> {
    Ok(t)
}

/// A successful reading of the UUID `id`.
pub open spec fn parsed_id(id: u128) -> Result<u128, Seq<char>> {
    Ok(id)
}

/// The view of a result that holds a number or an error text.
pub open spec fn id_result_view(r: Result<u128, String>) -> Result<u128, Seq<char>> {
    match r {
        Ok(v) => Ok(v),
        Err(e) => Err(e@),
    }
}

/// The view of a result that holds a text or an error text.
pub open spec fn text_result_view(r: Result<String, String>) -> Result<Seq<char>, Seq<char>> {
    match r {
        Ok(v) => Ok(v@),
        Err(e) => Err(e@),
    }
}

/// A random version-4 UUID from `uuid::Uuid::new_v4`, as a number. The
/// crate's source masks a random number so that the version field (bits 76
/// to 79) reads 4 and the variant field (bits 62 and 63) reads binary 10;
/// nothing else is known of the value.
#[verifier::external_body]
pub(crate) fn new_v4_id() -> (r: u128)
    ensures
        (r >> 76u128) & 0xfu128 == 4,
        (r >> 62u128) & 0x3u128 == 2,
{
    uuid::Uuid::new_v4().as_u128()
}

/// The current time from `chrono::Utc::now`, written by `to_rfc3339`. Which
/// time it is depends on the clock, so nothing is stated of that. What holds
/// of every outcome: when the year is written with four digits (years 0 to
/// 9999; chrono writes other years with a sign), the text is
/// `YYYY-MM-DDTHH:MM:SS[.fraction]+00:00`, which `parse_from_rfc3339` reads
/// back to the same instant, and writing that instant in UTC again gives the
/// same text.
#[verifier::external_body]
pub(crate) fn now_rfc3339() -> (r: String)
    ensures
        r@.len() > 4 && r@[4] == '-' ==> rfc3339_parse_result(r@) == parsed_text(r@),
{
    chrono::Utc::now().to_rfc3339()
}

/// `uuid::Uuid::parse_str`: reads a UUID in any of the crate's text forms
/// (simple, hyphenated, braced, URN), as a number; the result is named
/// `uuid_parse_result`.
#[verifier::external_body]
pub(crate) fn parse_uuid(s: &str) -> (r: Result<u128, String>)
    ensures
        id_result_view(r) == uuid_parse_result(s@),
{
    match uuid::Uuid::parse_str(s) {
        Ok(u) => Ok(u.as_u128()),
        Err(e) => Err(e.to_string()),
    }
}

/// `chrono::DateTime::parse_from_rfc3339`, with the instant converted to UTC
/// and written back by `to_rfc3339`; the result is named
/// `rfc3339_parse_result`.
#[verifier::external_body]
pub(crate) fn parse_rfc3339(s: &str) -> (r: Result<String, String>)
    ensures
        text_result_view(r) == rfc3339_parse_result(s@),
{
    match chrono::DateTime::parse_from_rfc3339(s) {
        Ok(t) => Ok(t.with_timezone(&chrono::Utc).to_rfc3339()),
        Err(e) => Err(e.to_string()),
    }
}

/// The text of a UUID given as a number, by `uuid::Uuid::from_u128` and its
/// `Display`, which the crate documents as the hyphenated lowercase form.
/// `uuid::Uuid::parse_str` reads that form back to the same number (its
/// parser takes the hyphenated form, and `as_u128` undoes `from_u128`).
#[verifier::external_body]
pub(crate) fn uuid_to_text(id: u128) -> (r: String)
    ensures
        r@ == uuid_text(id),
        uuid_parse_result(r@) == parsed_id(id),
{
    uuid::Uuid::from_u128(id).to_string()
}

} // verus!
