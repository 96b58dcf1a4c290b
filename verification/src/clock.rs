//! The wall clock, in milliseconds since the Unix epoch.

use std::time::{Duration, SystemTime, SystemTimeError, UNIX_EPOCH};
use vstd::prelude::*;

verus! {

/// A point in time.
#[verifier::external_type_specification]
#[verifier::external_body]
pub struct ExSystemTime(SystemTime);

/// The error of a time difference that is negative.
#[verifier::external_type_specification]
#[verifier::external_body]
pub struct ExSystemTimeError(SystemTimeError);

/// The nanoseconds from the Unix epoch to a point in time, negative for one
/// before it.
pub uninterp spec fn time_nanos(time: SystemTime) -> int;

/// The nanoseconds of a duration.
pub uninterp spec fn duration_nanos(d: Duration) -> nat;

/// Calls `SystemTime::now`. Nothing is claimed of the time.
#[verifier::external_body]
fn current_time() -> (r: SystemTime) {
    SystemTime::now()
}

/// Calls `SystemTime::duration_since` for the Unix epoch: what has passed since
/// then, or an error for a time before it.
#[verifier::external_body]
fn since_epoch(time: &SystemTime) -> (r: Result<Duration, SystemTimeError>)
    ensures
        r is Ok <==> time_nanos(*time) >= 0,
        r matches Ok(d) ==> duration_nanos(d) == time_nanos(*time),
{
    time.duration_since(UNIX_EPOCH)
}

/// Calls `Duration::as_secs`, which gives the whole seconds.
#[verifier::external_body]
fn whole_seconds(d: &Duration) -> (r: u64)
    ensures
        r == duration_nanos(*d) / 1_000_000_000,
{
    d.as_secs()
}

/// Calls `Duration::subsec_millis`, which gives the whole milliseconds of what
/// is left beside the whole seconds.
#[verifier::external_body]
fn further_millis(d: &Duration) -> (r: u32)
    ensures
        r == (duration_nanos(*d) % 1_000_000_000) / 1_000_000,
{
    d.subsec_millis()
}

/// Milliseconds of a time given in seconds and further milliseconds, in 64 bits.
pub fn millis(seconds: u64, further: u32) -> (r: u64)
    ensures
        r == (seconds * 1000 + further) % 0x1_0000_0000_0000_0000,
{
    seconds.wrapping_mul(1000).wrapping_add(further as u64)
}

/// Milliseconds of what has passed since the Unix epoch, given in seconds and
/// further milliseconds, or zero for a clock that stands before it.
pub fn epoch_millis(passed: Option<(u64, u32)>) -> (r: u64)
    ensures
        r == match passed {
            Some((seconds, further)) => (seconds * 1000 + further) % 0x1_0000_0000_0000_0000,
            None => 0,
        },
{
    match passed {
        Some((seconds, further)) => millis(seconds, further),
        None => 0,
    }
}

/// The whole milliseconds from the Unix epoch to a point in time, in 64 bits, or
/// zero for one before it.
pub open spec fn epoch_ms(time: SystemTime) -> u64 {
    if time_nanos(time) < 0 {
        0
    } else {
        ((time_nanos(time) / 1_000_000) % 0x1_0000_0000_0000_0000) as u64
    }
}

/// The milliseconds of a time go up by one with every million nanoseconds from the
/// epoch on, begin at zero, and are zero before it.
pub proof fn law_milliseconds_go_with_time(a: SystemTime, b: SystemTime)
    ensures
        time_nanos(a) < 1_000_000 ==> epoch_ms(a) == 0,
        0 <= time_nanos(a) && time_nanos(b) == time_nanos(a) + 1_000_000 && epoch_ms(a) < u64::MAX
            ==> epoch_ms(b) == epoch_ms(a) + 1,
        0 <= time_nanos(a) < 1_000_000 * 0x1_0000_0000_0000_0000 ==> 1_000_000 * epoch_ms(a)
            <= time_nanos(a) < 1_000_000 * (epoch_ms(a) + 1),
{
    if 0 <= time_nanos(a) && time_nanos(b) == time_nanos(a) + 1_000_000 {
        assert(time_nanos(b) / 1_000_000 == time_nanos(a) / 1_000_000 + 1);
    }
}

/// Milliseconds since the Unix epoch, or zero for a clock that stands before it:
/// those of the time that the clock shows. Which time that is is not claimed.
pub fn now_ms_u64() -> (r: u64)
    ensures
        exists|time: SystemTime| r == #[trigger] epoch_ms(time),
{
    let time = current_time();
    let passed = match since_epoch(&time) {
        Ok(d) => Some((whole_seconds(&d), further_millis(&d))),
        Err(_) => None,
    };
    let r: u64 = epoch_millis(passed);
    assert(r == epoch_ms(time));
    r
}

} // verus!
