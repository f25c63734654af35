//! The wall clock and calendar parsing, through chrono.
use vstd::prelude::*;

verus! {

/// A character that the sending-time rendering can hold: a digit, `-`, `:`,
/// or the `+` that marks a year past 9999.
pub open spec fn is_timestamp_char(c: char) -> bool {
    ('0' <= c && c <= '9') || c == '-' || c == ':' || c == '+'
}

/// Relies on chrono's `Utc::now` and its `%Y%m%d-%H:%M:%S` rendering: every
/// character written is a digit, `-`, `:`, or a year's `+` sign.
#[verifier::external_body]
pub(crate) fn current_fix_timestamp() -> (r: String)
    ensures
        forall|i: int| 0 <= i < r@.len() ==> is_timestamp_char(#[trigger] r@[i]),
{
    chrono::Utc::now().format("%Y%m%d-%H:%M:%S").to_string()
}

/// The UTC instant that an RFC 3339 text denotes, as whole seconds since the
/// Unix epoch and the nanoseconds past them; `None` where the text is not
/// RFC 3339.
pub uninterp spec fn rfc3339_instant(s: Seq<char>) -> Option<(i64, u32)>;

/// Relies on chrono's `DateTime::parse_from_rfc3339`, the result taken to UTC
/// and read back with `timestamp` and `timestamp_subsec_nanos`: the outcome
/// depends on the text alone.
#[verifier::external_body]
pub(crate) fn parse_rfc3339(s: &str) -> (r: Option<(i64, u32)>)
    ensures
        r == rfc3339_instant(s@),
{
    match chrono::DateTime::parse_from_rfc3339(s) {
        Ok(dt) => {
            let utc = dt.with_timezone(&chrono::Utc);
            Some((utc.timestamp(), utc.timestamp_subsec_nanos()))
        },
        Err(_) => None,
    }
}

} // verus!
