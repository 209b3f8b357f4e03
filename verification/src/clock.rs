use vstd::prelude::*;

verus! {

/// Relies on std::time::SystemTime: `now()`, its `duration_since` the Unix
/// epoch, and `Duration::as_micros`, to read the wall clock in microseconds.
/// Nothing can be promised of the clock's value; a reading before the epoch
/// yields 0 rather than failing. Timestamps are record metadata only: every
/// caller states what holds whatever value comes back.
#[verifier::external_body]
pub fn now_micros() -> (r: u128) {
    match std::time::SystemTime::now().duration_since(std::time::UNIX_EPOCH) {
        Ok(d) => d.as_micros(),
        Err(_) => 0,
    }
}

} // verus!
