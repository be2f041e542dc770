//! Wall-clock access. Time is represented everywhere in this crate as a
//! plain `i64` count of microseconds since the Unix epoch; business logic
//! takes a timestamp as an argument so that it stays deterministic, and only
//! this injected clock ever reads the real time.

use vstd::prelude::*;

verus! {

/// The single injected clock abstraction. Handlers and checkpoint writers
/// receive timestamps through it rather than reading the wall clock inline.
#[derive(Clone, Copy)]
pub struct Clock;

impl Clock {
    /// Relies on chrono's `From<SystemTime>` conversion (which handles a
    /// clock set before the epoch without aborting, unlike `Utc::now`)
    /// and `DateTime::timestamp_micros` to read the current wall-clock
    /// time as microseconds since the Unix epoch. The result depends on
    /// the moment of the call, so nothing is promised about it.
    #[verifier::external_body]
    pub fn now(&self) -> i64 {
        let t = std::time::SystemTime::now();
        chrono::DateTime::<chrono::Utc>::from(t).timestamp_micros()
    }
}

} // verus!
