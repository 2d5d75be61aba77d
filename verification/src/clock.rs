//! The time.
use vstd::prelude::*;

verus! {

/// A moment of the system clock.
#[verifier::external_type_specification]
#[verifier::external_body]
pub struct ExSystemTime(std::time::SystemTime);

/// `std::time::SystemTime::now`. Nothing is claimed of the moment, which is up to the machine.
pub assume_specification[ std::time::SystemTime::now ]() -> std::time::SystemTime;

/// `std::time::Duration::as_millis`. Nothing is claimed of the number, as spans of time come only
/// from the clock.
pub assume_specification[ std::time::Duration::as_millis ](d: &std::time::Duration) -> u128;

/// `std::time::SystemTime::duration_since` the epoch; `None` stands for its error, which comes where
/// the clock is set to an earlier moment. Nothing is claimed of either.
#[verifier::external_body]
fn since_epoch(t: std::time::SystemTime) -> (r: Option<std::time::Duration>) {
    t.duration_since(std::time::UNIX_EPOCH).ok()
}

/// The milliseconds since the epoch in 64 bits; zero before the epoch.
pub open spec fn ms_of(elapsed: Option<u128>) -> u64 {
    match elapsed {
        Some(ms) => (ms % 0x1_0000_0000_0000_0000) as u64,
        None => 0,
    }
}

/// The milliseconds since the epoch in 64 bits.
pub fn ms_from(elapsed: Option<u128>) -> (ms: u64)
    ensures
        ms == ms_of(elapsed),
{
    match elapsed {
        Some(ms) => {
            assert(ms as u64 == (ms % 0x1_0000_0000_0000_0000) as u64) by (bit_vector);
            ms as u64
        },
        None => 0,
    }
}

/// The milliseconds since the epoch, by the system clock. What the clock says is left open.
pub fn now_ms() -> (ms: u64)
    ensures
        exists|elapsed: Option<u128>| ms == ms_of(elapsed),
{
    let elapsed: Option<u128> = match since_epoch(std::time::SystemTime::now()) {
        Some(d) => Some(d.as_millis()),
        None => None,
    };
    ms_from(elapsed)
}

} // verus!
