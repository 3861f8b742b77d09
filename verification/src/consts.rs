use vstd::prelude::*;

verus! {

/// Seconds in a minute.
pub const SECS_PER_MIN: u64 = 60;

/// Seconds in an hour.
pub const SECS_PER_HR: u64 = 3600;

/// Nanoseconds in a second.
pub const NANOS_PER_SEC: u128 = 1_000_000_000;

} // verus!
