use tank_battle::arena::{Arena, Blast, Bullet, Drive, Effect, Revived, Tank};
use tank_battle::sound::Sound;

const WALL: u128 = 999;

fn two_tanks() -> Arena {
    let mut a = Arena::new();
    a.join(1, 101, 201, 0);
    a.join(2, 102, 202, 0);
    a
}

#[test]
fn joining_gives_a_fresh_tank() {
    let mut a = Arena::new();
    a.join(7, 70, 700, 123);
    assert_eq!(a.tank_count(), 1);
    assert_eq!(
        a.tank(7),
        Tank {
            id: 7,
            turret: 70,
            targetter: 700,
            alive: true,
            kills: 0,
            deaths: 0,
            death_ms: 123
        }
    );
    assert!(!a.has_tank(8));
}

#[test]
fn rejoining_replaces_the_tank() {
    let mut a = two_tanks();
    a.launch(10, 1);
    a.resolve_contact(&vec![10, 2], &vec![vec![false, false]], 500);
    assert_eq!(a.tank(1).kills, 1);
    a.join(1, 111, 211, 900);
    assert_eq!(a.tank_count(), 2);
    assert_eq!(a.tank(1).kills, 0);
    assert_eq!(a.tank(1).turret, 111);
}

#[test]
fn drive_without_player_or_tank_is_ignored() {
    let a = two_tanks();
    assert_eq!(a.drive(None, true, true, true, false), Drive::Ignored);
    assert_eq!(a.drive(Some(42), true, true, true, false), Drive::Ignored);
    assert_eq!(a.drive(Some(1), false, true, true, false), Drive::Ignored);
}

#[test]
fn drive_moves_and_grips_unless_drifting() {
    let a = two_tanks();
    assert_eq!(
        a.drive(Some(1), true, false, false, false),
        Drive::Moved { tank: 1, turret: 101, targetter: 201, fired: false, grip: true }
    );
    assert_eq!(
        a.drive(Some(1), true, false, true, true),
        Drive::Moved { tank: 1, turret: 101, targetter: 201, fired: false, grip: false }
    );
}

#[test]
fn firing_waits_for_the_cooldown() {
    let a = two_tanks();
    assert_eq!(
        a.drive(Some(1), true, true, true, false),
        Drive::Moved { tank: 1, turret: 101, targetter: 201, fired: true, grip: true }
    );
    assert_eq!(
        a.drive(Some(1), true, true, false, false),
        Drive::Aimed { tank: 1, turret: 101, targetter: 201 }
    );
    assert_eq!(
        a.drive(Some(1), true, true, true, true),
        Drive::Moved { tank: 1, turret: 101, targetter: 201, fired: true, grip: false }
    );
}

#[test]
fn no_shot_while_cooling_down_on_concrete_values() {
    let a = two_tanks();
    for client in [None, Some(1), Some(2), Some(3)] {
        for hit in [false, true] {
            for drift in [false, true] {
                let d = a.drive(client, hit, true, false, drift);
                assert!(!matches!(d, Drive::Moved { .. }));
            }
        }
    }
}

#[test]
fn launched_bullet_has_no_bounces() {
    let mut a = two_tanks();
    a.launch(10, 1);
    assert!(a.is_bullet(10));
    assert_eq!(a.bullet(10), Bullet { id: 10, owner: 1, bounces: 0 });
    assert_eq!(a.bullet_count(), 1);
}

#[test]
fn foreign_bullet_knocks_out_and_credits_the_shooter() {
    let mut a = two_tanks();
    a.launch(10, 1);
    let e = a.resolve_contact(&vec![10, 2], &vec![vec![false, false]], 777);
    assert_eq!(
        e,
        vec![
            Effect::Deflect { bullet: 10, normal: 0 },
            Effect::BounceCount { bullet: 10, count: 1 },
            Effect::KnockOut { tank: 2 },
            Effect::Score { tank: 2, kills: 0, deaths: 1 },
            Effect::ForeignHit { shooter: 1 },
            Effect::Score { tank: 1, kills: 1, deaths: 0 },
            Effect::Explosion { at: 10, blast: Blast::Large },
            Effect::Sound { cue: Sound::TankHit, emitter: 2 },
            Effect::Despawn { entity: 10 },
            Effect::Hide { tank: 2, turret: 102 },
        ]
    );
    assert!(!a.is_bullet(10));
    let v = a.tank(2);
    assert!(!v.alive);
    assert_eq!(v.deaths, 1);
    assert_eq!(v.death_ms, 777);
    assert_eq!(a.tank(1).kills, 1);
}

#[test]
fn own_bullet_counts_a_death_but_no_kill() {
    let mut a = two_tanks();
    a.launch(10, 1);
    let e = a.resolve_contact(&vec![10, 1], &vec![vec![false, false]], 50);
    assert_eq!(
        e,
        vec![
            Effect::Deflect { bullet: 10, normal: 0 },
            Effect::BounceCount { bullet: 10, count: 1 },
            Effect::KnockOut { tank: 1 },
            Effect::Score { tank: 1, kills: 0, deaths: 1 },
            Effect::Explosion { at: 10, blast: Blast::Large },
            Effect::Sound { cue: Sound::TankHit, emitter: 1 },
            Effect::Despawn { entity: 10 },
            Effect::Hide { tank: 1, turret: 101 },
        ]
    );
    assert_eq!(a.tank(1).kills, 0);
    assert_eq!(a.tank(1).deaths, 1);
}

#[test]
fn bullet_bounces_off_walls_and_dies_on_the_third() {
    let mut a = two_tanks();
    a.launch(10, 1);
    let e = a.resolve_contact(&vec![10, WALL], &vec![vec![false, false]], 1);
    assert_eq!(
        e,
        vec![
            Effect::Deflect { bullet: 10, normal: 0 },
            Effect::BounceCount { bullet: 10, count: 1 },
            Effect::Sound { cue: Sound::WallHit, emitter: WALL },
            Effect::MarkNormal { bullet: 10, normal: 0 },
            Effect::Explosion { at: 10, blast: Blast::Small },
        ]
    );
    assert_eq!(a.bullet(10).bounces, 1);
    a.resolve_contact(&vec![10, WALL], &vec![vec![false, false]], 2);
    assert_eq!(a.bullet(10).bounces, 2);
    let e3 = a.resolve_contact(&vec![10, WALL], &vec![vec![false, false]], 3);
    assert_eq!(e3.len(), 6);
    assert_eq!(e3[1], Effect::BounceCount { bullet: 10, count: 3 });
    assert_eq!(e3[5], Effect::Despawn { entity: 10 });
    assert!(!a.is_bullet(10));
    assert_eq!(a.bullet_count(), 0);
}

#[test]
fn same_normal_twice_does_nothing() {
    let mut a = two_tanks();
    a.launch(10, 1);
    let e = a.resolve_contact(&vec![10, 2], &vec![vec![true, false]], 5);
    assert!(e.is_empty());
    assert!(a.tank(2).alive);
    assert_eq!(a.bullet(10).bounces, 0);
}

#[test]
fn two_bullets_destroy_each_other() {
    let mut a = two_tanks();
    a.launch(10, 1);
    a.launch(11, 2);
    let e = a.resolve_contact(&vec![10, 11], &vec![vec![false, false]], 5);
    assert_eq!(
        e,
        vec![
            Effect::Explosion { at: 10, blast: Blast::Small },
            Effect::Despawn { entity: 10 },
            Effect::Despawn { entity: 11 },
        ]
    );
    assert_eq!(a.bullet_count(), 0);
}

#[test]
fn third_bullet_strikes_a_destroyed_one_as_a_wall() {
    let mut a = two_tanks();
    a.launch(10, 1);
    a.launch(11, 2);
    a.launch(12, 2);
    let e = a.resolve_contact(&vec![10, 11, 12], &vec![vec![false, false, false]], 5);
    assert_eq!(
        e,
        vec![
            Effect::Explosion { at: 10, blast: Blast::Small },
            Effect::Despawn { entity: 10 },
            Effect::Despawn { entity: 11 },
            Effect::Deflect { bullet: 12, normal: 0 },
            Effect::BounceCount { bullet: 12, count: 1 },
            Effect::Sound { cue: Sound::WallHit, emitter: 10 },
            Effect::MarkNormal { bullet: 12, normal: 0 },
            Effect::Explosion { at: 12, blast: Blast::Small },
        ]
    );
    assert_eq!(a.bullet(12).bounces, 1);
}

#[test]
fn lone_bullet_destroys_itself() {
    let mut a = two_tanks();
    a.launch(10, 1);
    let e = a.resolve_contact(&vec![10], &vec![vec![false]], 5);
    assert_eq!(
        e,
        vec![
            Effect::Explosion { at: 10, blast: Blast::Small },
            Effect::Despawn { entity: 10 },
            Effect::Despawn { entity: 10 },
        ]
    );
    assert!(!a.is_bullet(10));
}

#[test]
fn contact_without_normals_does_nothing() {
    let mut a = two_tanks();
    a.launch(10, 1);
    a.launch(11, 2);
    let e = a.resolve_contact(&vec![10, 11, 2], &vec![], 5);
    assert!(e.is_empty());
    assert_eq!(a.bullet_count(), 2);
    assert!(a.tank(2).alive);
}

#[test]
fn only_the_first_normal_matters() {
    let mut a = two_tanks();
    a.launch(10, 1);
    let mut b = two_tanks();
    b.launch(10, 1);
    let ea = a.resolve_contact(&vec![WALL, 10], &vec![vec![false, false]], 9);
    let eb = b.resolve_contact(
        &vec![WALL, 10],
        &vec![vec![false, false], vec![true, true], vec![false, true]],
        9,
    );
    assert_eq!(ea, eb);
    assert_eq!(a.bullet(10), b.bullet(10));
}

#[test]
fn contact_with_no_bullet_does_nothing() {
    let mut a = two_tanks();
    let e = a.resolve_contact(&vec![1, 2, WALL], &vec![vec![false, false, false], vec![false, false, false]], 9);
    assert!(e.is_empty());
    assert!(a.tank(1).alive && a.tank(2).alive);
}

#[test]
fn knocked_out_tank_is_a_wall_and_cannot_drive() {
    let mut a = two_tanks();
    a.launch(10, 1);
    a.resolve_contact(&vec![10, 2], &vec![vec![false, false]], 100);
    assert_eq!(a.drive(Some(2), true, true, true, false), Drive::Ignored);
    a.launch(11, 1);
    let e = a.resolve_contact(&vec![11, 2], &vec![vec![false, false]], 5100);
    assert_eq!(e[2], Effect::Sound { cue: Sound::WallHit, emitter: 2 });
    assert_eq!(a.tank(2).deaths, 1);
    assert_eq!(a.tank(1).kills, 1);
}

#[test]
fn respawn_request_puts_the_tank_back() {
    let mut a = two_tanks();
    a.launch(10, 1);
    a.resolve_contact(&vec![10, 2], &vec![vec![false, false]], 100);
    assert_eq!(a.respawn(2, false), None);
    assert!(!a.tank(2).alive);
    assert_eq!(a.respawn(2, true), Some(Revived { tank: 2, turret: 102 }));
    let t = a.tank(2);
    assert!(t.alive);
    assert_eq!(t.deaths, 1);
    assert_eq!(t.death_ms, 100);
    assert!(matches!(a.drive(Some(2), true, false, false, false), Drive::Moved { .. }));
}

#[test]
fn kills_never_exceed_deaths_over_a_match() {
    let mut a = two_tanks();
    a.join(3, 103, 203, 0);
    let mut now = 1000u64;
    let mut next_bullet = 50u128;
    for round in 0..12u128 {
        let shooter = 1 + round % 3;
        let victim = 1 + (round + 1) % 3;
        if let Drive::Moved { fired: true, .. } = a.drive(Some(shooter), true, true, true, false) {
            a.launch(next_bullet, shooter);
            a.resolve_contact(&vec![next_bullet, victim], &vec![vec![false, false]], now);
            next_bullet += 1;
        }
        a.respawn(victim, true);
        now += 1000;
        let kills: u32 = (1..=3).map(|t| a.tank(t).kills).sum();
        let deaths: u32 = (1..=3).map(|t| a.tank(t).deaths).sum();
        assert!(kills <= deaths);
    }
    let deaths: u32 = (1..=3).map(|t| a.tank(t).deaths).sum();
    assert_eq!(deaths, 12);
}
