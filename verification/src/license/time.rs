//! The current day, and days shown as dates.

use vstd::prelude::*;

verus! {

/// The day number of a moment in seconds since 1970-01-01.
pub fn epoch_day_of(secs: u64) -> (r: u64)
    ensures
        r == secs / 86400,
{
    secs / 86400
}

/// Today's day number, counted from 1970-01-01 (UTC).
pub fn today_epoch_day() -> (r: u64)
    ensures
        r <= u64::MAX / 86400,
{
    let secs = crate::dates::unix_now_secs();
    epoch_day_of(secs)
}

/// A day number as `yyyy-mm-dd`.
pub fn day_to_ymd_string(day: u64) -> (r: String)
    ensures
        r@ == crate::dates::ymd_text(day as int),
{
    crate::dates::day_to_ymd_string(day)
}

} // verus!
