//! The bounded shared counter that the thread-comparison demo increments
//! from several threads under a mutex.
use vstd::prelude::*;
use crate::random::{thread_rng, random_u64_between};

verus! {

/// The value at which every thread stops incrementing.
pub const COUNTER_LIMIT: u32 = 30;

/// How many threads share the counter.
pub const THREADS_NUMBER: u32 = 5;

/// Shortest pause, in seconds, a thread takes after an increment.
pub const SLEEP_MIN_SECS: u64 = 1;

/// Longest pause, in seconds, a thread takes after an increment.
pub const SLEEP_MAX_SECS: u64 = 3;

/// One locked step of a thread: stop once the limit is reached, else add one.
pub open spec fn spec_counter_step(counter: u32) -> Option<u32> {
    if counter >= COUNTER_LIMIT {
        None
    } else {
        Some((counter + 1) as u32)
    }
}

/// The counter after `n` locked steps taken from `start`, by any threads in
/// any order: a step that finds the limit reached changes nothing.
pub open spec fn counter_after(start: u32, n: nat) -> u32
    decreases n,
{
    if n == 0 {
        start
    } else {
        match spec_counter_step(counter_after(start, (n - 1) as nat)) {
            Some(c) => c,
            None => counter_after(start, (n - 1) as nat),
        }
    }
}

/// What a thread does while holding the lock: `None` when the counter has
/// reached `COUNTER_LIMIT` (the thread releases the lock and ends), else the
/// incremented value it writes back.
pub fn counter_step(counter: u32) -> (next: Option<u32>)
    ensures
        next == spec_counter_step(counter),
{
    if counter >= COUNTER_LIMIT {
        None
    } else {
        Some(counter + 1)
    }
}

/// Draws how long a thread sleeps after its increment: a random whole number
/// of seconds in `1..=3`, from the calling thread's generator.
pub fn pick_sleep_secs() -> (secs: u64)
    ensures
        SLEEP_MIN_SECS <= secs <= SLEEP_MAX_SECS,
{
    let mut rng = thread_rng();
    random_u64_between(&mut rng, SLEEP_MIN_SECS, SLEEP_MAX_SECS)
}

/// A step never takes a counter that is within the limit past the limit.
pub proof fn counter_step_stays_within_limit(counter: u32)
    requires
        counter <= COUNTER_LIMIT,
    ensures
        match spec_counter_step(counter) {
            Some(c) => c <= COUNTER_LIMIT && c == counter + 1,
            None => counter == COUNTER_LIMIT,
        },
{
}

/// Starting from zero, after any number `n` of locked steps the counter holds
/// `min(n, COUNTER_LIMIT)`: it never exceeds the limit, and once enough steps
/// have been taken it rests exactly at the limit.
pub proof fn counter_after_steps_from_zero(n: nat)
    ensures
        counter_after(0, n) == (if n <= COUNTER_LIMIT { n } else { COUNTER_LIMIT as nat }),
    decreases n,
{
    if n > 0 {
        counter_after_steps_from_zero((n - 1) as nat);
    }
}

} // verus!
