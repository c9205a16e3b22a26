//! The clock that timeouts go by.
use vstd::prelude::*;

verus! {

/// A clock that counts milliseconds and may wrap around.
pub trait Clock {
    /// Milliseconds since some moment in the past.
    fn now(&mut self) -> i32;
}

/// The milliseconds between two readings of a clock that wraps around:
/// their difference, taken to the range of a 32-bit signed number.
pub open spec fn elapsed_ms(started: i32, now: i32) -> int {
    let d = now - started;
    if d < i32::MIN {
        d + 0x1_0000_0000
    } else if d > i32::MAX {
        d - 0x1_0000_0000
    } else {
        d
    }
}

/// What is left of a budget of `timeout` milliseconds after the time
/// between two readings of the clock: never less than nothing.
pub open spec fn budget_after(timeout: i32, started: i32, now: i32) -> int {
    let left = timeout - elapsed_ms(started, now);
    if left < 0 {
        0
    } else if left > i32::MAX {
        i32::MAX as int
    } else {
        left
    }
}

/// What is left of a budget of `timeout` milliseconds after the time
/// between two readings of the clock.
pub fn remaining_budget(timeout: i32, started: i32, now: i32) -> (left: i32)
    ensures
        left == budget_after(timeout, started, now),
        left >= 0,
{
    let d: i64 = now as i64 - started as i64;
    let elapsed: i64 = if d < i32::MIN as i64 {
        d + 0x1_0000_0000
    } else if d > i32::MAX as i64 {
        d - 0x1_0000_0000
    } else {
        d
    };
    let left: i64 = timeout as i64 - elapsed;
    if left < 0 {
        0
    } else if left > i32::MAX as i64 {
        i32::MAX
    } else {
        left as i32
    }
}

} // verus!
