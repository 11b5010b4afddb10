//! The time of day.
use vstd::prelude::*;

verus! {

/// `SystemTime::now` and `SystemTime::duration_since` give the seconds since
/// the Unix epoch, or nothing where the clock is set before it. What they are
/// depends on the clock.
#[verifier::external_body]
fn seconds_since_epoch() -> Option<u64> {
    std::time::SystemTime::now()
        .duration_since(std::time::UNIX_EPOCH)
        .ok()
        .map(|duration| duration.as_secs())
}

/// `SystemTime::now` and `SystemTime::duration_since` give the milliseconds since
/// the Unix epoch, or nothing where the clock is set before it. What they are
/// depends on the clock.
#[verifier::external_body]
pub(crate) fn millis_since_epoch() -> Option<u128> {
    std::time::SystemTime::now()
        .duration_since(std::time::UNIX_EPOCH)
        .ok()
        .map(|duration| duration.as_millis())
}

/// The time in seconds, 0 where the clock is set before the Unix epoch.
pub open spec fn seconds_of(since_epoch: Option<u64>) -> i64 {
    match since_epoch {
        Some(elapsed) => elapsed as i64,
        None => 0i64,
    }
}

/// The time in seconds, 0 where the clock is set before the Unix epoch.
pub fn unix_seconds(since_epoch: Option<u64>) -> (seconds: i64)
    ensures
        seconds == seconds_of(since_epoch),
{
    match since_epoch {
        Some(elapsed) => elapsed as i64,
        None => 0,
    }
}

/// The time in seconds since the Unix epoch, as the clock of the machine has
/// it: `unix_seconds` of what the clock says.
pub fn unix_now() -> (seconds: i64)
    ensures
        exists|since_epoch: Option<u64>| seconds == #[trigger] seconds_of(since_epoch),
{
    let since_epoch = seconds_since_epoch();
    unix_seconds(since_epoch)
}

} // verus!
