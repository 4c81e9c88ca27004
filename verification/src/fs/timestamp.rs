//! The compact UTC timestamps in batch and segment names.

use vstd::prelude::*;
use vstd::string::StringExecFns;
use crate::text::{dec, push_decimal};

verus! {

/// What jiff gives for the instant `ms` milliseconds after the Unix epoch
/// formatted with the strftime pattern `format` in UTC: the text, or the text
/// of its error when the instant is out of its range.
pub uninterp spec fn jiff_format_millis(ms: int, format: Seq<char>) -> Result<Seq<char>, Seq<char>>;

/// Calls `jiff::Timestamp::from_millisecond`, then `strftime` on the result.
/// Claimed: the outcome is the named result of those two calls on `ms` and
/// `format` (the error's text when the first refuses `ms`).
#[verifier::external_body]
fn jiff_strftime_millis(ms: i64, format: &str) -> (r: Result<String, String>)
    ensures
        match r {
            Ok(s) => jiff_format_millis(ms as int, format@) == Ok::<Seq<char>, Seq<char>>(s@),
            Err(e) => jiff_format_millis(ms as int, format@) == Err::<Seq<char>, Seq<char>>(e@),
        },
{
    match jiff::Timestamp::from_millisecond(ms) {
        Ok(t) => Ok(t.strftime(format).to_string()),
        Err(e) => Err(e.to_string()),
    }
}

/// The pattern of the names' timestamps: year to second, no separators.
pub open spec fn compact_pattern() -> Seq<char> {
    "%Y%m%d%H%M%S"@
}

/// The compact UTC text of `millis`, or the message of the failure, which
/// keeps the value and jiff's reason.
pub open spec fn format_timestamp_spec(millis: u64) -> Result<Seq<char>, Seq<char>> {
    match jiff_format_millis((millis as i64) as int, compact_pattern()) {
        Ok(s) => Ok(s),
        Err(e) => Err("invalid timestamp "@ + dec(millis as nat) + " ms: "@ + e),
    }
}

/// The compact UTC text (`YYYYmmddHHMMSS`) of the instant `millis`
/// milliseconds after the Unix epoch.
pub fn format_timestamp(millis: u64) -> (r: Result<String, String>)
    ensures
        match r {
            Ok(s) => format_timestamp_spec(millis) == Ok::<Seq<char>, Seq<char>>(s@),
            Err(e) => format_timestamp_spec(millis) == Err::<Seq<char>, Seq<char>>(e@),
        },
{
    let pattern = "%Y%m%d%H%M%S";
    proof {
        reveal_strlit("%Y%m%d%H%M%S");
    }
    match jiff_strftime_millis(millis as i64, pattern) {
        Ok(s) => Ok(s),
        Err(reason) => {
            let mut msg = String::from_str("invalid timestamp ");
            push_decimal(&mut msg, millis);
            msg.append(" ms: ");
            msg.append(reason.as_str());
            Err(msg)
        },
    }
}

} // verus!
