use tank_battle::sound::{sound_asset, Sound};

#[test]
fn cue_codes_match_the_wire() {
    assert_eq!(Sound::TankHit.code(), 0);
    assert_eq!(Sound::Fire.code(), 1);
    assert_eq!(Sound::Tread.code(), 2);
    assert_eq!(Sound::WallHit.code(), 3);
}

#[test]
fn cue_round_trip() {
    for s in [Sound::TankHit, Sound::Fire, Sound::Tread, Sound::WallHit] {
        assert_eq!(Sound::from_code(s.code()), Some(s));
    }
    assert_eq!(Sound::from_code(4), None);
    assert_eq!(Sound::from_code(u32::MAX), None);
}

#[test]
fn assets_per_cue() {
    assert_eq!(sound_asset(0), Some("bonk.ogg"));
    assert_eq!(sound_asset(1), Some("tankfire.ogg"));
    assert_eq!(sound_asset(2), None);
    assert_eq!(sound_asset(3), Some("wall_bonk.ogg"));
    assert_eq!(sound_asset(7), None);
}
