use vstd::prelude::*;

verus! {

/// Time duration since the machine started (or, on a hosted build, since
/// the epoch): seconds and the microseconds below one second.
#[derive(Copy, Clone, Debug, PartialEq, Eq, Structural)]
pub struct TimeVal {
    /// seconds
    pub sec: usize,
    /// microseconds
    pub usec: usize,
}

/// Relies on std::time::SystemTime::now and duration_since: a microsecond
/// reading of the wall clock. Nothing can be promised of the value a clock
/// returns; a reading before the epoch or beyond the word size comes back
/// as 0.
#[verifier::external_body]
fn clock_us() -> usize {
    match std::time::SystemTime::now().duration_since(std::time::UNIX_EPOCH) {
        Ok(d) => d.as_micros() as usize,
        Err(_) => 0,
    }
}

impl TimeVal {
    /// Current time, split into seconds and sub-second microseconds.
    pub fn now() -> (t: TimeVal)
        ensures
            t.usec < 1_000_000,
    {
        let us = clock_us();
        TimeVal::from_us(us)
    }

    pub fn from_us(us: usize) -> (t: TimeVal)
        ensures
            t.sec == us / 1_000_000,
            t.usec == us % 1_000_000,
            t.usec < 1_000_000,
    {
        TimeVal { sec: us / 1_000_000, usec: us % 1_000_000 }
    }
}

} // verus!
