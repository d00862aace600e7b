//! Wall-clock readings. What the clock returns is never claimed; the conversions of a
//! reading are verified.
use vstd::prelude::*;

verus! {

#[verifier::external_type_specification]
#[verifier::external_body]
pub struct ExSystemTime(std::time::SystemTime);

/// `std::time::SystemTime::now`.
#[verifier::external_body]
fn system_now() -> std::time::SystemTime {
    std::time::SystemTime::now()
}

/// `SystemTime::duration_since(UNIX_EPOCH)`; `None` for a time before the epoch.
#[verifier::external_body]
fn since_unix_epoch(time: &std::time::SystemTime) -> Option<core::time::Duration> {
    time.duration_since(std::time::UNIX_EPOCH).ok()
}

/// `Duration::as_secs`.
#[verifier::external_body]
fn duration_secs(duration: &core::time::Duration) -> u64 {
    duration.as_secs()
}

/// `Duration::as_millis`.
#[verifier::external_body]
fn duration_millis(duration: &core::time::Duration) -> u128 {
    duration.as_millis()
}

/// Seconds since the epoch as stored in history rows; a clock before the epoch reads 0.
pub fn epoch_seconds(since_epoch: Option<u64>) -> (s: i64)
    ensures
        since_epoch matches Some(v) ==> s == v as i64,
        since_epoch is None ==> s == 0,
{
    match since_epoch {
        Some(v) => v as i64,
        None => 0,
    }
}

/// Milliseconds since the epoch, truncated to 64 bits; a clock before the epoch reads 0.
pub fn epoch_millis(since_epoch: Option<u128>) -> (ms: u64)
    ensures
        since_epoch matches Some(v) ==> ms == v as u64,
        since_epoch is None ==> ms == 0,
{
    match since_epoch {
        Some(v) => v as u64,
        None => 0,
    }
}

/// Current Unix time in whole seconds.
pub fn unix_seconds() -> i64 {
    let now = system_now();
    let secs = match since_unix_epoch(&now) {
        Some(d) => Some(duration_secs(&d)),
        None => None,
    };
    epoch_seconds(secs)
}

/// Current Unix time in milliseconds.
pub fn unix_millis() -> u64 {
    let now = system_now();
    let ms = match since_unix_epoch(&now) {
        Some(d) => Some(duration_millis(&d)),
        None => None,
    };
    epoch_millis(ms)
}

/// Milliseconds since the epoch, saturating at `u64::MAX`; a clock before the epoch reads 0.
pub fn epoch_millis_saturating(since_epoch: Option<u128>) -> (ms: u64)
    ensures
        since_epoch matches Some(v) ==> ms == (if v <= u64::MAX { v as u64 } else { u64::MAX }),
        since_epoch is None ==> ms == 0,
{
    match since_epoch {
        Some(v) => if v <= 0xffff_ffff_ffff_ffffu128 { v as u64 } else { u64::MAX },
        None => 0,
    }
}

/// Current Unix time in milliseconds, saturating at `u64::MAX`.
pub fn unix_millis_saturating() -> u64 {
    let now = system_now();
    let ms = match since_unix_epoch(&now) {
        Some(d) => Some(duration_millis(&d)),
        None => None,
    };
    epoch_millis_saturating(ms)
}

} // verus!
