use vstd::prelude::*;

verus! {

use crate::text::json_plain;

/// The instant, in whole seconds since the Unix epoch, that an RFC 3339
/// timestamp text denotes, or `None` when the text is no valid RFC 3339
/// timestamp. chrono's parser decides; the contracts of this crate speak of
/// its verdict only through this name.
pub uninterp spec fn rfc3339_val(s: Seq<char>) -> Option<i64>;

/// Relies on chrono: `DateTime::parse_from_rfc3339`, the parsed instant
/// reduced to its epoch-second timestamp, parse failure to `None`.
#[verifier::external_body]
pub fn parse_rfc3339(s: &str) -> (r: Option<i64>)
    ensures
        r == rfc3339_val(s@),
{
    match chrono::DateTime::parse_from_rfc3339(s) {
        Ok(d) => Some(d.timestamp()),
        Err(_) => None,
    }
}

/// Relies on chrono: `Utc::now().to_rfc3339()` renders the clock, out of
/// digits, '-', ':', '.', '+', 'T' and 'Z' only — characters that stand
/// unescaped in a JSON string — and the timestamp returned is what
/// `parse_from_rfc3339` reads back out of that very text, so the first
/// clause holds by construction on every outcome. A clock whose rendering
/// the strict parser refuses (a year beyond four digits) comes back as
/// `None`; a clock before the Unix epoch makes `Utc::now` itself panic.
#[verifier::external_body]
pub fn now_rfc3339() -> (r: Option<(i64, String)>)
    ensures
        r matches Some(p) ==> rfc3339_val(p.1@) == Some(p.0) && json_plain(p.1@) && p.1@.len()
            > 0,
{
    let text = chrono::Utc::now().to_rfc3339();
    match chrono::DateTime::parse_from_rfc3339(&text) {
        Ok(d) => Some((d.timestamp(), text)),
        Err(_) => None,
    }
}

/// Relies on chrono: `Local::now().format("%d-%m-%y_%H-%M")` writes exactly
/// fourteen characters, all zero-padded digits, '-' or '_'. Names the local
/// wall-clock tag that snapshot file names carry.
#[verifier::external_body]
pub fn local_date_tag() -> (r: String)
    ensures
        r@.len() == 14,
        forall|i: int|
            0 <= i < r@.len() ==> ((#[trigger] r@[i]) == '-' || r@[i] == '_' || ('0' <= r@[i]
                && r@[i] <= '9')),
{
    chrono::Local::now().format("%d-%m-%y_%H-%M").to_string()
}

} // verus!
