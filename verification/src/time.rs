//! Timestamps as `SystemTime` values.
use std::time::{Duration, SystemTime, UNIX_EPOCH};
use vstd::prelude::*;

verus! {

#[verifier::external_type_specification]
#[verifier::external_body]
pub struct ExSystemTime(SystemTime);

/// Names the point in time `ms` milliseconds after the Unix epoch, as
/// `UNIX_EPOCH + Duration::from_millis(ms)` computes it.
pub uninterp spec fn epoch_millis_time(ms: u64) -> SystemTime;

/// `UNIX_EPOCH + Duration::from_millis(ms)`: the point in time `ms`
/// milliseconds after the Unix epoch. The result is taken to be
/// `epoch_millis_time(ms)`, a function of `ms` alone. The addition panics only
/// when the platform cannot represent the result; 48-bit millisecond counts
/// (up to the year 10889) are within range everywhere, hence the bound.
#[verifier::external_body]
pub(crate) fn time_after_epoch(ms: u64) -> (t: SystemTime)
    requires
        ms < 0x1_0000_0000_0000,
    ensures
        t == epoch_millis_time(ms),
{
    UNIX_EPOCH + Duration::from_millis(ms)
}

} // verus!
