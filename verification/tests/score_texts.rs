use tank_battle::scoring::{banner_message, count_text, count_up, kd_text, COUNT_LIMIT};

#[test]
fn counters_step_by_one() {
    assert_eq!(count_up(0), 1);
    assert_eq!(count_up(41), 42);
    assert_eq!(count_up(COUNT_LIMIT - 1), COUNT_LIMIT);
}

#[test]
fn counters_stop_at_the_limit_like_a_float() {
    assert_eq!(COUNT_LIMIT, 16_777_216);
    assert_eq!(count_up(COUNT_LIMIT), COUNT_LIMIT);
    let f = COUNT_LIMIT as f32;
    assert_eq!(f + 1.0, f);
    let g = (COUNT_LIMIT - 1) as f32;
    assert_eq!((g + 1.0) as u32, count_up(COUNT_LIMIT - 1));
}

#[test]
fn count_text_is_decimal() {
    assert_eq!(count_text(0), "0");
    assert_eq!(count_text(7), "7");
    assert_eq!(count_text(10), "10");
    assert_eq!(count_text(905), "905");
    assert_eq!(count_text(COUNT_LIMIT), "16777216");
    assert_eq!(count_text(u32::MAX), "4294967295");
}

#[test]
fn count_text_matches_float_display() {
    for n in [0u32, 1, 9, 10, 99, 100, 12345, COUNT_LIMIT] {
        assert_eq!(count_text(n), (n as f32).to_string());
    }
}

#[test]
fn kd_line() {
    assert_eq!(kd_text(0, 0), "Kills: 0 | Deaths: 0");
    assert_eq!(kd_text(12, 3), "Kills: 12 | Deaths: 3");
}

#[test]
fn banner_only_when_out_of_play() {
    assert_eq!(banner_message(true), "");
    assert_eq!(
        banner_message(false),
        "You are dead! Click 'R' to respawn! (Wait 5 seconds)"
    );
}
