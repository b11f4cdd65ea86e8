//! Clock readings, taken on trust from the standard library.

use vstd::prelude::*;

verus! {

/// Relies on SystemTime::now and duration_since: seconds since the Unix
/// epoch, or zero when the clock sits before it.
#[verifier::external_body]
pub fn get_sys_time_in_secs() -> u128 {
    match std::time::SystemTime::now().duration_since(std::time::SystemTime::UNIX_EPOCH) {
        Ok(n) => n.as_secs() as u128,
        Err(_) => 0,
    }
}

/// Relies on SystemTime::now and duration_since: milliseconds since the Unix
/// epoch, or zero when the clock sits before it.
#[verifier::external_body]
pub fn get_sys_time_in_millis() -> u128 {
    match std::time::SystemTime::now().duration_since(std::time::SystemTime::UNIX_EPOCH) {
        Ok(n) => n.as_millis(),
        Err(_) => 0,
    }
}

/// Relies on SystemTime::now and duration_since: nanoseconds since the Unix
/// epoch, or zero when the clock sits before it.
#[verifier::external_body]
pub fn get_sys_time_in_nano() -> u128 {
    match std::time::SystemTime::now().duration_since(std::time::SystemTime::UNIX_EPOCH) {
        Ok(n) => n.as_nanos(),
        Err(_) => 0,
    }
}

} // verus!
