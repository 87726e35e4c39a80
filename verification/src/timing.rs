//! The respawn wait. Instants are game time in whole milliseconds, as the
//! client reads them.
//!
//! The server's own timers (the fire cooldown, smoke puffs, tread marks and
//! fading tracks) compare differences of game time taken as single-precision
//! seconds, whose rounding decides the outcome at the thresholds; those
//! comparisons are made by the caller on the engine's clock, and the rules
//! here take their outcome as a plain answer (see `Arena::drive`).

use vstd::prelude::*;

verus! {

/// Time a knocked-out player waits before the respawn button does anything.
pub const RESPAWN_DELAY_MS: u64 = 5000;

/// Whether the respawn button of a player knocked out at `death_ms` sends a
/// request at `now_ms`. The time of death is never later than the present.
pub fn respawn_allowed(now_ms: u64, death_ms: u64) -> (r: bool)
    requires
        death_ms <= now_ms,
    ensures
        r == (now_ms - death_ms >= RESPAWN_DELAY_MS),
{
    now_ms - death_ms >= RESPAWN_DELAY_MS
}

/// Once the respawn wait is over it stays over: waiting longer never takes
/// the permission back.
pub proof fn respawn_wait_stays_over(death: u64, now: u64, later: u64)
    requires
        death <= now <= later,
        now - death >= RESPAWN_DELAY_MS,
    ensures
        later - death >= RESPAWN_DELAY_MS,
{
}

} // verus!
