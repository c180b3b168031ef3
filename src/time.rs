//! Relative modification times ("3 days ago").
use vstd::prelude::*;
use chrono::TimeZone;
use crate::text::{decimal, push_decimal};

verus! {

pub const SECONDS_PER_MINUTE: i64 = 60;
pub const SECONDS_PER_HOUR: i64 = 3600;
pub const SECONDS_PER_DAY: i64 = 86400;

/// The first second that chrono's `DateTime<Utc>` can represent:
/// January 1 of the year -262143, 00:00:00 UTC.
pub const UTC_MIN_SECS: i64 = -8_334_601_228_800;

/// The last second that chrono's `DateTime<Utc>` can represent:
/// December 31 of the year 262142, 23:59:59 UTC.
pub const UTC_MAX_SECS: i64 = 8_210_266_876_799;

/// Relies on chrono's `Utc.timestamp_opt(secs, 0)`: it yields an instant
/// exactly when `secs` lies between the timestamps of `DateTime::<Utc>::MIN_UTC`
/// and `DateTime::<Utc>::MAX_UTC` (years -262143 to 262142), and that instant's
/// `timestamp()` gives `secs` back.
#[verifier::external_body]
fn utc_timestamp(secs: i64) -> (r: Option<i64>)
    ensures
        (r is Some) <==> UTC_MIN_SECS <= secs <= UTC_MAX_SECS,
        r matches Some(t) ==> t == secs,
{
    match chrono::Utc.timestamp_opt(secs, 0) {
        chrono::LocalResult::Single(dt) => Some(dt.timestamp()),
        chrono::LocalResult::Ambiguous(dt, _) => Some(dt.timestamp()),
        chrono::LocalResult::None => None,
    }
}

/// How long ago something happened, `elapsed` seconds back, truncated to the
/// largest whole unit among minutes, hours and days.
pub open spec fn elapsed_text(elapsed: int) -> Seq<char> {
    if elapsed < SECONDS_PER_MINUTE {
        "just now"@
    } else if elapsed < SECONDS_PER_HOUR {
        decimal((elapsed / SECONDS_PER_MINUTE as int) as nat) + " minutes ago"@
    } else if elapsed < SECONDS_PER_DAY {
        decimal((elapsed / SECONDS_PER_HOUR as int) as nat) + " hours ago"@
    } else {
        decimal((elapsed / SECONDS_PER_DAY as int) as nat) + " days ago"@
    }
}

/// The relative time of a modification `modified` seconds after the epoch,
/// seen at `now`; a placeholder when the instant cannot be represented.
pub open spec fn time_text(modified: int, now: int) -> Seq<char> {
    if modified < UTC_MIN_SECS || modified > UTC_MAX_SECS {
        "an invalid time"@
    } else {
        elapsed_text(now - modified)
    }
}

/// Renders an elapsed number of seconds as a relative time.
pub fn format_elapsed(elapsed: i64) -> (r: String)
    ensures
        r@ == elapsed_text(elapsed as int),
{
    if elapsed < SECONDS_PER_MINUTE {
        String::from_str("just now")
    } else if elapsed < SECONDS_PER_HOUR {
        let mut out = String::new();
        push_decimal(&mut out, (elapsed / SECONDS_PER_MINUTE) as u64);
        out.append(" minutes ago");
        out
    } else if elapsed < SECONDS_PER_DAY {
        let mut out = String::new();
        push_decimal(&mut out, (elapsed / SECONDS_PER_HOUR) as u64);
        out.append(" hours ago");
        out
    } else {
        let mut out = String::new();
        push_decimal(&mut out, (elapsed / SECONDS_PER_DAY) as u64);
        out.append(" days ago");
        out
    }
}

/// Renders the time of a modification `modified_secs` after the epoch
/// relative to `now_secs`.
pub fn format_time_at(modified_secs: u64, now_secs: i64) -> (r: String)
    ensures
        r@ == time_text(modified_secs as int, now_secs as int),
{
    if modified_secs > i64::MAX as u64 {
        return String::from_str("an invalid time");
    }
    match utc_timestamp(modified_secs as i64) {
        None => String::from_str("an invalid time"),
        Some(t) => {
            if now_secs < t {
                String::from_str("just now")
            } else {
                format_elapsed(now_secs - t)
            }
        },
    }
}

} // verus!
