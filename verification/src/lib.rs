pub mod auth;
pub mod password;
pub mod security;
pub mod codec;

use vstd::prelude::*;
use vstd::arithmetic::power2::lemma2_to64;
use vstd::arithmetic::power2::pow2;

verus! {

/// Capped exponential backoff: no delay before the first failure, then
/// `2 ^ min(failed_attempts, 5)` seconds, topping out at 32 seconds.
pub open spec fn spec_delay(failed_attempts: u32) -> u64 {
    if failed_attempts == 0 {
        0
    } else if failed_attempts >= 5 {
        32
    } else if failed_attempts == 4 {
        16
    } else if failed_attempts == 3 {
        8
    } else if failed_attempts == 2 {
        4
    } else {
        2
    }
}

/// Advises how many seconds a caller should wait after a run of consecutive
/// login failures; the caller decides whether to apply the delay.
pub fn compute_delay(failed_attempts: u32) -> (delay: u64)
    ensures
        delay == spec_delay(failed_attempts),
{
    if failed_attempts == 0 {
        0
    } else if failed_attempts >= 5 {
        32
    } else if failed_attempts == 4 {
        16
    } else if failed_attempts == 3 {
        8
    } else if failed_attempts == 2 {
        4
    } else {
        2
    }
}

/// After at least one failure the advised delay is exactly
/// `2 ^ min(failed_attempts, 5)` seconds, so the cap of 32 seconds holds for
/// every failure count of five or more.
pub proof fn lemma_delay_formula(failed_attempts: u32)
    ensures
        failed_attempts > 0 ==> spec_delay(failed_attempts) == pow2(
            vstd::math::min(failed_attempts as int, 5) as nat,
        ),
        failed_attempts >= 5 ==> spec_delay(failed_attempts) == 32,
{
    lemma2_to64();
}

} // verus!
