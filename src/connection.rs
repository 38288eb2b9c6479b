use vstd::prelude::*;

verus! {

/// The longest wait between two connection attempts, in milliseconds.
pub const MAX_RETRY_DELAY_MS: u64 = 10000;

/// The wait before retrying after failed attempt number `attempt` (from 0):
/// `min(250 * attempt, 10000)` milliseconds.
pub open spec fn retry_delay_of(attempt: int) -> int {
    if 250 * attempt < 10000 {
        250 * attempt
    } else {
        10000
    }
}

/// How long to wait after failed connection attempt `attempt`, counted from 0,
/// so the first retry comes at once.
pub fn retry_delay_ms(attempt: u64) -> (r: u64)
    ensures
        r == retry_delay_of(attempt as int),
{
    if attempt >= 40 {
        MAX_RETRY_DELAY_MS
    } else {
        250 * attempt
    }
}

/// Waits never shrink from one attempt to the next, and never pass ten seconds.
pub proof fn lemma_retry_delay_bounded(a: int, b: int)
    requires
        0 <= a <= b,
    ensures
        retry_delay_of(a) <= retry_delay_of(b),
        0 <= retry_delay_of(b) <= 10000,
{
}

} // verus!
