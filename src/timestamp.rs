//! Calendar times of the geotag listing, read with the `time` crate.
use vstd::prelude::*;

verus! {

/// Seconds since the Unix epoch of `text` read as a UTC calendar time in the
/// shape `YYYY-MM-DD HH:MM:SS`, or nothing when `text` is not such a time.
pub uninterp spec fn utc_seconds_of(text: Seq<char>) -> Option<i64>;

/// Relies on `time::PrimitiveDateTime::parse` with the format description
/// `[year]-[month]-[day] [hour]:[minute]:[second]` (built by
/// `time::format_description::parse_borrowed`), then on `assume_utc` and
/// `unix_timestamp`. The outcome depends on the text alone.
#[verifier::external_body]
pub(crate) fn parse_utc_seconds(text: &str) -> (r: Option<i64>)
    ensures
        r == utc_seconds_of(text@),
{
    let format = time::format_description::parse_borrowed::<1>(
        "[year]-[month]-[day] [hour]:[minute]:[second]",
    ).ok()?;
    let t = time::PrimitiveDateTime::parse(text, &format).ok()?;
    Some(t.assume_utc().unix_timestamp())
}

} // verus!
