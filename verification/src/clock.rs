//! The wall clock, in milliseconds since the Unix epoch.

use vstd::prelude::*;

verus! {

/// The present moment, as std's `SystemTime::now` gives it and chrono
/// counts it: the conversion of chrono from a `SystemTime` to a time in
/// UTC is read through `DateTime::timestamp_millis`, the number of
/// milliseconds between the Unix epoch and that time. The conversion
/// handles a clock on either side of the epoch, so the number is negative
/// for a clock that stands before it. Nothing is claimed of the number: two
/// readings may differ in either direction. chrono holds times within
/// about 262 000 years of the epoch, and the conversion is defined for
/// those.
#[verifier::external_body]
pub(crate) fn now_millis() -> i64 {
    chrono::DateTime::<chrono::Utc>::from(std::time::SystemTime::now()).timestamp_millis()
}

/// The present moment as the store counts time. A clock that stands
/// before the epoch is read as the epoch. The moment fits in a signed
/// integer of 64 bits, so that a time-to-live of that size can be added
/// to it.
pub fn current_millis() -> (r: u64)
    ensures
        r <= i64::MAX,
{
    let now: i64 = now_millis();
    moment_of_reading(now)
}

/// The moment that a reading of the clock stands for: the reading itself,
/// and the epoch for a reading before the epoch.
pub open spec fn moment_of(reading: i64) -> u64 {
    if reading < 0 {
        0
    } else {
        reading as u64
    }
}

/// The moment that a reading of the clock stands for.
pub fn moment_of_reading(reading: i64) -> (r: u64)
    ensures
        r == moment_of(reading),
{
    if reading < 0 {
        0
    } else {
        reading as u64
    }
}

} // verus!
