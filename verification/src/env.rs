//! Wall-clock time in words.

use vstd::prelude::*;

use crate::text::{two_digits, two_digits_text};

verus! {

/// Hours, minutes and seconds, with colons between them.
pub open spec fn hms(hours: nat, minutes: nat, seconds: nat) -> Seq<char> {
    two_digits(hours) + ":"@ + two_digits(minutes) + ":"@ + two_digits(seconds)
}

/// Write hours, minutes and seconds down.
pub fn hms_text(hours: u64, minutes: u64, seconds: u64) -> (text: String)
    ensures
        text@ == hms(hours as nat, minutes as nat, seconds as nat),
{
    let mut text = two_digits_text(hours);
    text.append(":");
    text.append(two_digits_text(minutes).as_str());
    text.append(":");
    text.append(two_digits_text(seconds).as_str());
    text
}

/// "15:04:07" for a timestamp in milliseconds, in UTC.
pub fn clock_hms(ts_ms: u64) -> (text: String)
    ensures
        text@ == hms(
            (ts_ms / 1000 / 3600 % 24) as nat,
            (ts_ms / 1000 / 60 % 60) as nat,
            (ts_ms / 1000 % 60) as nat,
        ),
{
    let secs = ts_ms / 1000;
    hms_text(secs / 3600 % 24, secs / 60 % 60, secs % 60)
}

} // verus!
