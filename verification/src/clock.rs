//! The wall clock, read through the standard library.
use vstd::prelude::*;

verus! {

/// `std::time::SystemTime`, a reading of the system clock.
#[verifier::external_type_specification]
#[verifier::external_body]
pub struct ExSystemTime(std::time::SystemTime);

/// `std::time::SystemTimeError`, a reading before the reference time.
#[verifier::external_type_specification]
#[verifier::external_body]
pub struct ExSystemTimeError(std::time::SystemTimeError);

/// `SystemTime::now`: the system clock's current reading. Nothing is promised of it.
#[verifier::external_body]
fn system_now() -> (r: std::time::SystemTime) {
    std::time::SystemTime::now()
}

/// `SystemTime::duration_since(UNIX_EPOCH)`: the time since the epoch, or an error when
/// the reading lies before it. Nothing is promised of the value.
#[verifier::external_body]
fn since_epoch(t: &std::time::SystemTime) -> (r: Result<std::time::Duration, std::time::SystemTimeError>) {
    t.duration_since(std::time::UNIX_EPOCH)
}

/// `Duration::as_millis`: the whole milliseconds of a span. Nothing is promised of the
/// value, as the span itself is a clock reading.
#[verifier::external_body]
fn duration_millis(d: &std::time::Duration) -> (r: u128) {
    d.as_millis()
}

/// The clock in milliseconds since the epoch, truncated to 64 bits as `as u64` does;
/// zero when the clock reads before the epoch.
pub fn now_millis() -> (r: u64) {
    let t = system_now();
    match since_epoch(&t) {
        Ok(d) => {
            let ms = duration_millis(&d);
            #[verifier::truncate]
            let v = ms as u64;
            v
        },
        Err(_) => 0,
    }
}

} // verus!
