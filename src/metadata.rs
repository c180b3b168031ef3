//! The metadata annotation that follows an entry in the listing.
use vstd::prelude::*;
use crate::size::{size_text, format_file_size};
use crate::time::{time_text, format_time_at};

verus! {

/// What could be learnt of an entry's modification time.
pub enum ModifiedTime {
    /// The filesystem did not report a modification time.
    Unavailable,
    /// The modification time lies before the Unix epoch.
    BeforeEpoch,
    /// The modification time, in whole seconds after the Unix epoch.
    SinceEpoch(u64),
}

/// The annotation for an entry of `size` bytes, seen at `now`.
pub open spec fn metadata_text(size: nat, modified: ModifiedTime, now: int) -> Seq<char> {
    match modified {
        ModifiedTime::Unavailable => " (Unable to fetch metadata)"@,
        ModifiedTime::BeforeEpoch => " ("@ + size_text(size) + " modified "@ + before_epoch_text() + ")"@,
        ModifiedTime::SinceEpoch(secs) => " ("@ + size_text(size) + " modified "@
            + time_text(secs as int, now) + ")"@,
    }
}

/// What stands in place of the relative time of a modification before the
/// Unix epoch.
pub open spec fn before_epoch_text() -> Seq<char> {
    "a time before UNIX_EPOCH"@
}

/// The annotation for an entry whose metadata could not be read at all.
pub open spec fn missing_metadata_text() -> Seq<char> {
    " (Error fetching metadata)"@
}

fn annotate(size: u64, time_str: String) -> (r: String)
    ensures
        r@ == " ("@ + size_text(size as nat) + " modified "@ + time_str@ + ")"@,
{
    let mut out = String::from_str(" (");
    let size_str = format_file_size(size);
    out.append(size_str.as_str());
    out.append(" modified ");
    out.append(time_str.as_str());
    out.append(")");
    out
}

/// Renders the annotation for an entry of `size` bytes at time `now_secs`
/// (seconds after the Unix epoch).
pub fn format_metadata_at(size: u64, modified: ModifiedTime, now_secs: i64) -> (r: String)
    ensures
        r@ == metadata_text(size as nat, modified, now_secs as int),
{
    match modified {
        ModifiedTime::Unavailable => String::from_str(" (Unable to fetch metadata)"),
        ModifiedTime::BeforeEpoch => {
            let time_str = String::from_str("a time before UNIX_EPOCH");
            annotate(size, time_str)
        },
        ModifiedTime::SinceEpoch(secs) => {
            let time_str = format_time_at(secs, now_secs);
            annotate(size, time_str)
        },
    }
}

/// Renders the annotation for an entry whose metadata could not be read.
pub fn format_missing_metadata() -> (r: String)
    ensures
        r@ == missing_metadata_text(),
{
    String::from_str(" (Error fetching metadata)")
}

} // verus!
