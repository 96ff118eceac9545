//! The wall clock.
use vstd::prelude::*;

verus! {

/// Seconds since the Unix epoch (`SystemTime::now().duration_since(UNIX_EPOCH)`),
/// 0 if the clock reads earlier than the epoch. Nothing is claimed of the value.
#[verifier::external_body]
pub fn now_secs() -> u64 {
    std::time::SystemTime::now().duration_since(std::time::UNIX_EPOCH).map(|d| d.as_secs()).unwrap_or(0)
}

/// Nanoseconds since the Unix epoch, reduced to 64 bits; 0 before the epoch.
/// Nothing is claimed of the value.
#[verifier::external_body]
pub fn now_ns() -> u64 {
    std::time::SystemTime::now().duration_since(std::time::UNIX_EPOCH).map(|d| d.as_nanos() as u64).unwrap_or(0)
}

} // verus!
