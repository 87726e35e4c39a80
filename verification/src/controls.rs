//! How the client turns held keys into a throttle change for its tank.
//!
//! The speed itself is a float kept by the client; what it compares against
//! the limits is handed in here as plain answers, and the choice of change is
//! made here.

use vstd::prelude::*;

verus! {

/// How the speed compares with the limits that the throttle rule reads.
#[derive(Clone, Copy, Debug, PartialEq, Eq, Structural)]
pub struct SpeedReading {
    /// The speed is at most the forward top speed.
    pub at_most_top: bool,
    /// The speed is zero or more.
    pub at_least_zero: bool,
    /// The speed is at least the reverse top speed.
    pub at_least_reverse_top: bool,
    /// The speed is zero or less.
    pub at_most_zero: bool,
}

/// The change made to the speed in one frame.
#[derive(Clone, Copy, Debug, PartialEq, Eq, Structural)]
pub enum Throttle {
    /// Speed up forward (forward held, below top speed).
    Accelerate,
    /// Slow down from forward motion or rest.
    Brake,
    /// Speed up backward (reverse held, below reverse top speed).
    Reverse,
    /// Creep back towards rest from backward motion.
    Recover,
    /// Leave the speed as it is (only when the speed compares with nothing, as a NaN does).
    Hold,
}

/// The throttle rule, in order of priority.
pub open spec fn spec_throttle(forward: bool, reverse: bool, s: SpeedReading) -> Throttle {
    if forward && s.at_most_top {
        Throttle::Accelerate
    } else if s.at_least_zero {
        Throttle::Brake
    } else if reverse && s.at_least_reverse_top {
        Throttle::Reverse
    } else if s.at_most_zero {
        Throttle::Recover
    } else {
        Throttle::Hold
    }
}

/// The change to make to the speed this frame, given whether the forward and
/// reverse keys are held and how the speed compares with the limits.
pub fn throttle(forward: bool, reverse: bool, speed: SpeedReading) -> (t: Throttle)
    ensures
        t == spec_throttle(forward, reverse, speed),
{
    if forward && speed.at_most_top {
        Throttle::Accelerate
    } else if speed.at_least_zero {
        Throttle::Brake
    } else if reverse && speed.at_least_reverse_top {
        Throttle::Reverse
    } else if speed.at_most_zero {
        Throttle::Recover
    } else {
        Throttle::Hold
    }
}

/// With no key held, a tank that moves forward or stands still is always
/// slowed, and one that moves backward always creeps back: the throttle never
/// pushes an idle tank further from rest in the direction it is moving.
pub proof fn idle_tank_drifts_to_rest(s: SpeedReading)
    requires
        s.at_least_zero || s.at_most_zero,
    ensures
        s.at_least_zero ==> spec_throttle(false, false, s) == Throttle::Brake,
        !s.at_least_zero ==> spec_throttle(false, false, s) == Throttle::Recover,
{
}

/// Forward held below the forward top speed always speeds the tank up
/// forward, whatever else is held and whatever the sign of the speed.
pub proof fn forward_accelerates(reverse: bool, s: SpeedReading)
    requires
        s.at_most_top,
    ensures
        spec_throttle(true, reverse, s) == Throttle::Accelerate,
{
}

/// Only forward can accelerate, only reverse can reverse, and a speed of zero
/// or more is never reversed further: the reverse throttle applies only to a
/// backward-moving tank with reverse held and room below the reverse top
/// speed.
pub proof fn throttle_needs_its_key(forward: bool, reverse: bool, s: SpeedReading)
    ensures
        spec_throttle(forward, reverse, s) == Throttle::Accelerate ==> forward && s.at_most_top,
        spec_throttle(forward, reverse, s) == Throttle::Reverse ==> reverse
            && s.at_least_reverse_top && !s.at_least_zero,
        spec_throttle(forward, reverse, s) == Throttle::Brake ==> s.at_least_zero,
        spec_throttle(forward, reverse, s) == Throttle::Recover ==> s.at_most_zero
            && !s.at_least_zero,
        spec_throttle(forward, reverse, s) == Throttle::Hold ==> !s.at_least_zero
            && !s.at_most_zero,
{
}

/// A speed that compares as a number (at least zero or at most zero) always
/// changes: the throttle holds only a speed that compares with nothing.
pub proof fn throttle_always_acts(forward: bool, reverse: bool, s: SpeedReading)
    requires
        s.at_least_zero || s.at_most_zero,
    ensures
        spec_throttle(forward, reverse, s) != Throttle::Hold,
{
}

} // verus!
