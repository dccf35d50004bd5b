//! Arithmetic on the wall clock, which is `chrono`'s.
use crate::types::Time;
use chrono::{Duration, TimeZone, Utc};
use std::ops::Sub;
use vstd::prelude::*;

verus! {

pub const NANOS_PER_SECOND: i64 = 1_000_000_000;

/// The whole seconds in a span of time; a part of a second does not count, in either direction.
pub open spec fn whole_seconds(nanos: int) -> int {
    if nanos >= 0 {
        nanos / NANOS_PER_SECOND as int
    } else {
        -((-nanos) / NANOS_PER_SECOND as int)
    }
}

/// `DateTime::signed_duration_since` and `Duration::num_seconds`: the whole seconds from one time
/// to another.
#[verifier::external_body]
pub(crate) fn seconds_since(now: Time, then: Time) -> (seconds: i64)
    ensures
        seconds == whole_seconds(now - then),
{
    Utc.timestamp_nanos(now).signed_duration_since(Utc.timestamp_nanos(then)).num_seconds()
}

/// `DateTime - Duration`: the time some seconds earlier, as long as it is a [`Time`].
#[verifier::external_body]
pub(crate) fn seconds_before(now: Time, seconds: u32) -> (then: Time)
    requires
        now - seconds * NANOS_PER_SECOND >= i64::MIN,
    ensures
        then == now - seconds * NANOS_PER_SECOND,
{
    let then = Utc.timestamp_nanos(now).sub(Duration::seconds(seconds as i64));
    then.timestamp_nanos_opt().unwrap()
}

} // verus!
