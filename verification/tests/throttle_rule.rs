use tank_battle::controls::{throttle, SpeedReading, Throttle};

fn reading(speed: f32) -> SpeedReading {
    SpeedReading {
        at_most_top: speed <= 0.09,
        at_least_zero: speed >= 0.0,
        at_least_reverse_top: speed >= -0.06,
        at_most_zero: speed <= 0.0,
    }
}

#[test]
fn forward_accelerates_below_top_speed() {
    assert_eq!(throttle(true, false, reading(0.0)), Throttle::Accelerate);
    assert_eq!(throttle(true, false, reading(0.05)), Throttle::Accelerate);
    assert_eq!(throttle(true, true, reading(-0.02)), Throttle::Accelerate);
}

#[test]
fn forward_at_top_speed_brakes() {
    assert_eq!(throttle(true, false, reading(0.1)), Throttle::Brake);
}

#[test]
fn idle_tank_brakes_or_recovers() {
    assert_eq!(throttle(false, false, reading(0.03)), Throttle::Brake);
    assert_eq!(throttle(false, false, reading(0.0)), Throttle::Brake);
    assert_eq!(throttle(false, false, reading(-0.03)), Throttle::Recover);
}

#[test]
fn reverse_speeds_up_backward_until_its_top() {
    assert_eq!(throttle(false, true, reading(-0.03)), Throttle::Reverse);
    assert_eq!(throttle(false, true, reading(-0.07)), Throttle::Recover);
    assert_eq!(throttle(false, true, reading(0.02)), Throttle::Brake);
}

#[test]
fn nan_speed_holds() {
    assert_eq!(throttle(true, true, reading(f32::NAN)), Throttle::Hold);
}
