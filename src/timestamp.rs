use vstd::prelude::*;

verus! {

/// Seconds since the Unix epoch of an ISO-8601 instant, as jiff reads it;
/// `None` where jiff refuses the text.
pub uninterp spec fn parsed_seconds(s: Seq<char>) -> Option<i64>;

/// Relies on jiff's `FromStr` for `Timestamp` and `Timestamp::as_second`:
/// the outcome depends on the text alone.
#[verifier::external_body]
pub(crate) fn parse_seconds(s: &str) -> (r: Option<i64>)
    ensures
        r == parsed_seconds(s@),
{
    match s.parse::<jiff::Timestamp>() {
        Ok(ts) => Some(ts.as_second()),
        Err(_) => None,
    }
}

} // verus!
