//! The battle itself: the tanks in play, the bullets in flight, and what each
//! server event does to them.
//!
//! Entities are named by the engine's 128-bit ids. The arena keeps, for each
//! tank and bullet, exactly what the rules read; everything else (positions,
//! velocities, models) stays with the engine, and the operations here answer
//! with the effects the engine has to carry out.

use vstd::prelude::*;
use crate::scoring::{COUNT_LIMIT, spec_count_up, count_up};
use crate::sound::Sound;

verus! {

/// A bullet is gone once it has bounced this many times.
pub const BOUNCE_LIMIT: u32 = 3;

/// A player's tank.
#[derive(Clone, Copy, Debug, PartialEq, Eq, Structural)]
pub struct Tank {
    /// The player's entity (the hull).
    pub id: u128,
    /// The turret entity that rides on the hull.
    pub turret: u128,
    /// The small marker cube that shows where the player aims.
    pub targetter: u128,
    /// In play (not knocked out).
    pub alive: bool,
    /// Other players knocked out by this player's bullets.
    pub kills: u32,
    /// Times this tank was knocked out.
    pub deaths: u32,
    /// When this tank was last knocked out (its joining time before that).
    pub death_ms: u64,
}

/// A bullet in flight.
#[derive(Clone, Copy, Debug, PartialEq, Eq, Structural)]
pub struct Bullet {
    /// The bullet entity.
    pub id: u128,
    /// The tank that fired it.
    pub owner: u128,
    /// How often it has bounced so far.
    pub bounces: u32,
}

/// Things that carry an entity id.
pub trait Keyed {
    spec fn key(&self) -> u128;

    fn key_of(&self) -> (k: u128)
        ensures
            k == self.key(),
    ;
}

impl Keyed for Tank {
    open spec fn key(&self) -> u128 {
        self.id
    }

    fn key_of(&self) -> (k: u128) {
        self.id
    }
}

impl Keyed for Bullet {
    open spec fn key(&self) -> u128 {
        self.id
    }

    fn key_of(&self) -> (k: u128) {
        self.id
    }
}

/// No id occurs twice.
pub open spec fn distinct<T: Keyed>(s: Seq<T>) -> bool {
    forall|i: int, j: int|
        0 <= i < s.len() && 0 <= j < s.len() && i != j ==> #[trigger] s[i].key() != #[trigger] s[j].key()
}

/// Where the entry with id `id` stands, or -1 where there is none.
pub open spec fn slot<T: Keyed>(s: Seq<T>, id: u128) -> int {
    if exists|i: int| 0 <= i < s.len() && #[trigger] s[i].key() == id {
        choose|i: int| 0 <= i < s.len() && #[trigger] s[i].key() == id
    } else {
        -1
    }
}

proof fn lemma_slot_at<T: Keyed>(s: Seq<T>, id: u128, i: int)
    requires
        distinct(s),
        0 <= i < s.len(),
        s[i].key() == id,
    ensures
        slot(s, id) == i,
{
    let j = slot(s, id);
    assert(0 <= j < s.len() && s[j].key() == id);
}

proof fn lemma_slot_none<T: Keyed>(s: Seq<T>, id: u128)
    requires
        forall|j: int| 0 <= j < s.len() ==> #[trigger] s[j].key() != id,
    ensures
        slot(s, id) == -1,
{
}

proof fn lemma_slot_some<T: Keyed>(s: Seq<T>, id: u128)
    requires
        slot(s, id) >= 0,
    ensures
        0 <= slot(s, id) < s.len(),
        s[slot(s, id)].key() == id,
{
}

/// Replacing an entry by one with the same id moves no entry.
proof fn lemma_slot_update<T: Keyed>(s: Seq<T>, i: int, t: T)
    requires
        distinct(s),
        0 <= i < s.len(),
        t.key() == s[i].key(),
    ensures
        distinct(s.update(i, t)),
        forall|id: u128| #[trigger] slot(s.update(i, t), id) == slot(s, id),
{
    let s2 = s.update(i, t);
    assert forall|id: u128| #[trigger] slot(s2, id) == slot(s, id) by {
        if slot(s, id) >= 0 {
            lemma_slot_some(s, id);
            lemma_slot_at(s2, id, slot(s, id));
        } else {
            assert forall|j: int| 0 <= j < s2.len() implies #[trigger] s2[j].key() != id by {
                if s2[j].key() == id {
                    assert(s[j].key() == id);
                }
            }
        }
    }
}

/// Appending an entry with a new id keeps the others where they are.
proof fn lemma_slot_push<T: Keyed>(s: Seq<T>, t: T)
    requires
        distinct(s),
        slot(s, t.key()) == -1,
    ensures
        distinct(s.push(t)),
        slot(s.push(t), t.key()) == s.len(),
        forall|id: u128| id != t.key() ==> #[trigger] slot(s.push(t), id) == slot(s, id),
{
    let s2 = s.push(t);
    assert forall|i: int, j: int|
        0 <= i < s2.len() && 0 <= j < s2.len() && i != j implies #[trigger] s2[i].key()
        != #[trigger] s2[j].key() by {
        if i < s.len() && j < s.len() {
            assert(s2[i] == s[i] && s2[j] == s[j]);
        } else if i < s.len() {
            assert(s2[i] == s[i]);
            if s[i].key() == t.key() {
                assert(exists|k: int| 0 <= k < s.len() && #[trigger] s[k].key() == t.key());
            }
        } else {
            assert(s2[j] == s[j]);
            if s[j].key() == t.key() {
                assert(exists|k: int| 0 <= k < s.len() && #[trigger] s[k].key() == t.key());
            }
        }
    }
    lemma_slot_at(s2, t.key(), s.len() as int);
    assert forall|id: u128| id != t.key() implies #[trigger] slot(s2, id) == slot(s, id) by {
        if slot(s, id) >= 0 {
            lemma_slot_some(s, id);
            lemma_slot_at(s2, id, slot(s, id));
        } else {
            assert forall|j: int| 0 <= j < s2.len() implies #[trigger] s2[j].key() != id by {
                if j < s.len() && s2[j].key() == id {
                    assert(s[j].key() == id);
                }
            }
        }
    }
}

/// Removing an entry keeps every other id present, and the removed one absent.
proof fn lemma_slot_remove<T: Keyed>(s: Seq<T>, i: int)
    requires
        distinct(s),
        0 <= i < s.len(),
    ensures
        distinct(s.remove(i)),
        slot(s.remove(i), s[i].key()) == -1,
        forall|id: u128|
            id != s[i].key() ==> (slot(s.remove(i), id) >= 0 <==> slot(s, id) >= 0),
        forall|id: u128|
            id != s[i].key() && slot(s, id) >= 0 ==> s.remove(i)[#[trigger] slot(s.remove(i), id)]
                == s[slot(s, id)],
{
    let s2 = s.remove(i);
    s.remove_ensures(i);
    assert forall|a: int, b: int|
        0 <= a < s2.len() && 0 <= b < s2.len() && a != b implies #[trigger] s2[a].key()
        != #[trigger] s2[b].key() by {
        let a0 = if a < i { a } else { a + 1 };
        let b0 = if b < i { b } else { b + 1 };
        assert(s2[a] == s[a0] && s2[b] == s[b0]);
    }
    assert forall|j: int| 0 <= j < s2.len() implies #[trigger] s2[j].key() != s[i].key() by {
        let j0 = if j < i { j } else { j + 1 };
        assert(s2[j] == s[j0]);
    }
    lemma_slot_none(s2, s[i].key());
    assert forall|id: u128| id != s[i].key() implies (slot(s2, id) >= 0 <==> slot(s, id) >= 0)
        && (slot(s, id) >= 0 ==> s2[#[trigger] slot(s2, id)] == s[slot(s, id)]) by {
        if slot(s, id) >= 0 {
            lemma_slot_some(s, id);
            let k = slot(s, id);
            let k2 = if k < i { k } else { k - 1 };
            assert(s2[k2] == s[k]);
            lemma_slot_at(s2, id, k2);
        } else {
            assert forall|j: int| 0 <= j < s2.len() implies #[trigger] s2[j].key() != id by {
                let j0 = if j < i { j } else { j + 1 };
                assert(s2[j] == s[j0]);
            }
        }
    }
}

/// Where the entry with id `id` stands in `v`, if anywhere.
fn find<T: Keyed>(v: &Vec<T>, id: u128) -> (r: Option<usize>)
    requires
        distinct(v@),
    ensures
        match r {
            Some(i) => i < v@.len() && slot(v@, id) == i,
            None => slot(v@, id) == -1,
        },
{
    let mut i: usize = 0;
    while i < v.len()
        invariant
            i <= v@.len(),
            distinct(v@),
            forall|j: int| 0 <= j < i ==> #[trigger] v@[j].key() != id,
        decreases v@.len() - i,
    {
        if v[i].key_of() == id {
            proof {
                lemma_slot_at(v@, id, i as int);
            }
            return Some(i);
        }
        i += 1;
    }
    proof {
        lemma_slot_none(v@, id);
    }
    None
}

/// The arena as the rules see it.
#[verifier::ext_equal]
pub struct Field {
    pub tanks: Seq<Tank>,
    pub bullets: Seq<Bullet>,
}

impl Field {
    /// The arena is consistent: no tank or bullet is listed twice, every
    /// bullet's owner is a tank, no bullet in flight has used up its bounces,
    /// and no counter is past its limit.
    pub open spec fn wf(self) -> bool {
        &&& distinct(self.tanks)
        &&& distinct(self.bullets)
        &&& forall|i: int|
            0 <= i < self.bullets.len() ==> #[trigger] slot(self.tanks, self.bullets[i].owner)
                >= 0
        &&& forall|i: int| 0 <= i < self.bullets.len() ==> #[trigger] self.bullets[i].bounces < BOUNCE_LIMIT
        &&& forall|i: int|
            0 <= i < self.tanks.len() ==> #[trigger] self.tanks[i].kills <= COUNT_LIMIT
                && self.tanks[i].deaths <= COUNT_LIMIT
    }

    pub open spec fn has_tank(self, id: u128) -> bool {
        slot(self.tanks, id) >= 0
    }

    pub open spec fn tank(self, id: u128) -> Tank {
        self.tanks[slot(self.tanks, id)]
    }

    /// `id` is a tank in play.
    pub open spec fn in_play(self, id: u128) -> bool {
        self.has_tank(id) && self.tank(id).alive
    }

    /// `id` is a bullet in flight.
    pub open spec fn is_bullet(self, id: u128) -> bool {
        slot(self.bullets, id) >= 0
    }

    pub open spec fn bullet(self, id: u128) -> Bullet {
        self.bullets[slot(self.bullets, id)]
    }

    /// The arena with the tank of id `t.id` replaced by `t`.
    pub open spec fn with_tank(self, t: Tank) -> Field {
        Field { tanks: self.tanks.update(slot(self.tanks, t.id), t), bullets: self.bullets }
    }

    /// The arena with the bullet of id `b.id` replaced by `b`.
    pub open spec fn with_bullet(self, b: Bullet) -> Field {
        Field { tanks: self.tanks, bullets: self.bullets.update(slot(self.bullets, b.id), b) }
    }

    /// The arena without the bullet `id` (unchanged where there is none).
    pub open spec fn without_bullet(self, id: u128) -> Field {
        if self.is_bullet(id) {
            Field { tanks: self.tanks, bullets: self.bullets.remove(slot(self.bullets, id)) }
        } else {
            self
        }
    }
}

/// The tank a player gets on joining at `now`: in play, with no score.
pub open spec fn fresh_tank(id: u128, turret: u128, targetter: u128, now: u64) -> Tank {
    Tank { id, turret, targetter, alive: true, kills: 0, deaths: 0, death_ms: now }
}

/// The arena after `t` joins: it replaces a tank of the same id, or is added.
pub open spec fn joined(f: Field, t: Tank) -> Field {
    if f.has_tank(t.id) {
        f.with_tank(t)
    } else {
        Field { tanks: f.tanks.push(t), bullets: f.bullets }
    }
}

/// The arena after bullet `b` is put in flight: it replaces a bullet of the
/// same id, or is added.
pub open spec fn launched(f: Field, b: Bullet) -> Field {
    if f.is_bullet(b.id) {
        f.with_bullet(b)
    } else {
        Field { tanks: f.tanks, bullets: f.bullets.push(b) }
    }
}

/// The arena after player `id` asks to respawn: with the request set, the
/// tank is back in play; without it, nothing changes.
pub open spec fn respawned(f: Field, id: u128, requested: bool) -> Field {
    if requested {
        f.with_tank(Tank { alive: true, ..f.tank(id) })
    } else {
        f
    }
}

/// What the engine does with a player's steering message.
#[derive(Clone, Copy, Debug, PartialEq, Eq, Structural)]
pub enum Drive {
    /// Nothing: there is no player, its tank is not in play, or the aim ray
    /// hit nothing.
    Ignored,
    /// The aim marker moves to the aim point and the turret turns to it; the
    /// player asked to fire while still cooling down, so the tank neither
    /// fires nor moves.
    Aimed { tank: u128, turret: u128, targetter: u128 },
    /// The marker and turret follow the aim point; with `fired`, a bullet
    /// leaves the barrel (the engine notes the time of the shot, spawns the
    /// bullet and reports it with `Arena::launch`); then the tank turns and is
    /// pushed forward, and with `grip` (not drifting) its velocity is set
    /// outright.
    Moved { tank: u128, turret: u128, targetter: u128, fired: bool, grip: bool },
}

/// The answer to a steering message from `client` (none where the message
/// came from no player): whether the aim ray hit something, whether fire is
/// held, whether the tank's fire cooldown is over on the engine's clock, and
/// whether the player drifts.
pub open spec fn drive_outcome(
    f: Field,
    client: Option<u128>,
    aim_hit: bool,
    fire: bool,
    cooled_down: bool,
    drifting: bool,
) -> Drive {
    match client {
        None => Drive::Ignored,
        Some(c) => {
            if !f.in_play(c) || !aim_hit {
                Drive::Ignored
            } else {
                let t = f.tank(c);
                if fire && !cooled_down {
                    Drive::Aimed { tank: c, turret: t.turret, targetter: t.targetter }
                } else {
                    Drive::Moved {
                        tank: c,
                        turret: t.turret,
                        targetter: t.targetter,
                        fired: fire,
                        grip: !drifting,
                    }
                }
            }
        },
    }
}

/// Size of an explosion cloud.
#[derive(Clone, Copy, Debug, PartialEq, Eq, Structural)]
pub enum Blast {
    /// Scale one: a bounce, or two bullets meeting.
    Small,
    /// Scale three: a tank knocked out.
    Large,
}

/// Something the engine has to do after a contact, in the order given.
#[derive(Clone, Copy, Debug, PartialEq, Eq, Structural)]
pub enum Effect {
    /// Broadcast an explosion where entity `at` stands.
    Explosion { at: u128, blast: Blast },
    /// Remove the entity.
    Despawn { entity: u128 },
    /// Mirror the bullet's heading about contact normal number `normal` and stop its spin.
    Deflect { bullet: u128, normal: usize },
    /// The bullet's bounce counter now reads `count`.
    BounceCount { bullet: u128, count: u32 },
    /// The tank leaves play: it loses its player marker, and its time of death is now.
    KnockOut { tank: u128 },
    /// The tank's score now reads `kills` and `deaths`.
    Score { tank: u128, kills: u32, deaths: u32 },
    /// Log that a player was shot by someone else's bullet, fired by `shooter`.
    ForeignHit { shooter: u128 },
    /// Broadcast a sound cue played on `emitter`.
    Sound { cue: Sound, emitter: u128 },
    /// The bullet remembers contact normal number `normal` as the last it bounced off.
    MarkNormal { bullet: u128, normal: usize },
    /// Shrink the tank and its turret to nothing.
    Hide { tank: u128, turret: u128 },
}

/// Bullet `shot` strikes entity `target` across contact normal `normal` at
/// `now`. The bullet is deflected and counts one more bounce. If `target` is
/// a tank in play, that tank is knocked out and counts one more death, the
/// bullet's owner counts one more kill unless it shot itself, and the bullet
/// is gone in a large explosion. Otherwise the bullet bounces off with a
/// small explosion, remembers the normal, and is gone if that was its last
/// bounce.
pub open spec fn hit_outcome(
    f: Field,
    effs: Seq<Effect>,
    shot: u128,
    target: u128,
    normal: usize,
    now: u64,
) -> (Field, Seq<Effect>) {
    let b = f.bullet(shot);
    let nb = (b.bounces + 1) as u32;
    let f1 = f.with_bullet(Bullet { bounces: nb, ..b });
    let e1 = effs.push(Effect::Deflect { bullet: shot, normal }).push(
        Effect::BounceCount { bullet: shot, count: nb },
    );
    if f1.in_play(target) {
        let v = f1.tank(target);
        let v2 = Tank { alive: false, death_ms: now, deaths: spec_count_up(v.deaths), ..v };
        let f2 = f1.with_tank(v2);
        let e2 = e1.push(Effect::KnockOut { tank: target }).push(
            Effect::Score { tank: target, kills: v2.kills, deaths: v2.deaths },
        );
        let w = f2.tank(b.owner);
        let w2 = Tank { kills: spec_count_up(w.kills), ..w };
        let f3 = if target != b.owner {
            f2.with_tank(w2)
        } else {
            f2
        };
        let e3 = if target != b.owner {
            e2.push(Effect::ForeignHit { shooter: b.owner }).push(
                Effect::Score { tank: b.owner, kills: w2.kills, deaths: w2.deaths },
            )
        } else {
            e2
        };
        (
            f3.without_bullet(shot),
            e3.push(Effect::Explosion { at: shot, blast: Blast::Large }).push(
                Effect::Sound { cue: Sound::TankHit, emitter: target },
            ).push(Effect::Despawn { entity: shot }).push(
                Effect::Hide { tank: target, turret: v.turret },
            ),
        )
    } else {
        let e2 = e1.push(Effect::Sound { cue: Sound::WallHit, emitter: target }).push(
            Effect::MarkNormal { bullet: shot, normal },
        ).push(Effect::Explosion { at: shot, blast: Blast::Small });
        if nb >= BOUNCE_LIMIT {
            (f1.without_bullet(shot), e2.push(Effect::Despawn { entity: shot }))
        } else {
            (f1, e2)
        }
    }
}

/// One position `i` of a contact between the entities `ids`, whose contact
/// normal number `normal` the bullet at `ids[i]` bounced off last exactly
/// where `repeated[i]`. Each entity is paired with the next one (the last
/// with the first). Two bullets that meet destroy each other and the scan
/// goes on; a bullet that meets anything else strikes it, unless it already
/// bounced off this normal, and either way the scan stops (the first
/// component of the answer). Anything else is passed over.
pub open spec fn contact_step(
    f: Field,
    effs: Seq<Effect>,
    ids: Seq<u128>,
    repeated: Seq<bool>,
    i: int,
    normal: usize,
    now: u64,
) -> (bool, Field, Seq<Effect>) {
    let o = ids[i];
    let nx = ids[(i + 1) % (ids.len() as int)];
    if f.is_bullet(o) && f.is_bullet(nx) {
        (
            false,
            f.without_bullet(o).without_bullet(nx),
            effs.push(Effect::Explosion { at: o, blast: Blast::Small }).push(
                Effect::Despawn { entity: o },
            ).push(Effect::Despawn { entity: nx }),
        )
    } else if f.is_bullet(o) {
        if repeated[i] {
            (true, f, effs)
        } else {
            let (f2, e2) = hit_outcome(f, effs, o, nx, normal, now);
            (true, f2, e2)
        }
    } else {
        (false, f, effs)
    }
}

/// The contact scanned from position `i` on, along the first contact normal.
pub open spec fn scan(
    f: Field,
    effs: Seq<Effect>,
    ids: Seq<u128>,
    repeated: Seq<bool>,
    i: int,
    now: u64,
) -> (Field, Seq<Effect>)
    decreases ids.len() - i,
{
    if i < 0 || i >= ids.len() {
        (f, effs)
    } else {
        let (halt, f2, e2) = contact_step(f, effs, ids, repeated, i, 0, now);
        if halt {
            (f2, e2)
        } else {
            scan(f2, e2, ids, repeated, i + 1, now)
        }
    }
}

/// The arena and the effects after the engine reports that the entities
/// `ids` touched across `normals` contact normals, where `first_repeated[i]`
/// tells whether the bullet `ids[i]` bounced off the first normal last time.
/// Only the first normal matters: a contact with none does nothing, and the
/// scan along the first one leaves nothing for the others to do.
pub open spec fn contact_outcome(
    f: Field,
    ids: Seq<u128>,
    normals: nat,
    first_repeated: Seq<bool>,
    now: u64,
) -> (Field, Seq<Effect>) {
    if normals == 0 {
        (f, Seq::empty())
    } else {
        scan(f, Seq::empty(), ids, first_repeated, 0, now)
    }
}


proof fn lemma_with_tank_wf(f: Field, t: Tank)
    requires
        f.wf(),
        f.has_tank(t.id),
        t.kills <= COUNT_LIMIT,
        t.deaths <= COUNT_LIMIT,
    ensures
        f.with_tank(t).wf(),
        forall|id: u128| #[trigger] slot(f.with_tank(t).tanks, id) == slot(f.tanks, id),
        f.with_tank(t).tank(t.id) == t,
{
    let i = slot(f.tanks, t.id);
    lemma_slot_some(f.tanks, t.id);
    lemma_slot_update(f.tanks, i, t);
    let g = f.with_tank(t);
    assert forall|k: int| 0 <= k < g.tanks.len() implies #[trigger] g.tanks[k].kills
        <= COUNT_LIMIT && g.tanks[k].deaths <= COUNT_LIMIT by {
        if k != i {
            assert(g.tanks[k] == f.tanks[k]);
        }
    }
    assert forall|k: int| 0 <= k < g.bullets.len() implies #[trigger] slot(
        g.tanks,
        g.bullets[k].owner,
    ) >= 0 by {
        assert(g.bullets[k] == f.bullets[k]);
    }
}

proof fn lemma_with_bullet_wf(f: Field, b: Bullet)
    requires
        f.wf(),
        f.is_bullet(b.id),
        f.has_tank(b.owner),
        b.bounces < BOUNCE_LIMIT,
    ensures
        f.with_bullet(b).wf(),
        forall|id: u128| #[trigger] slot(f.with_bullet(b).bullets, id) == slot(f.bullets, id),
{
    let i = slot(f.bullets, b.id);
    lemma_slot_some(f.bullets, b.id);
    lemma_slot_update(f.bullets, i, b);
    let g = f.with_bullet(b);
    assert forall|k: int| 0 <= k < g.bullets.len() implies #[trigger] slot(
        g.tanks,
        g.bullets[k].owner,
    ) >= 0 && g.bullets[k].bounces < BOUNCE_LIMIT by {
        if k != i {
            assert(g.bullets[k] == f.bullets[k]);
        }
    }
}

proof fn lemma_without_bullet_wf(f: Field, id: u128)
    requires
        f.wf(),
    ensures
        f.without_bullet(id).wf(),
        f.without_bullet(id).tanks == f.tanks,
        !f.without_bullet(id).is_bullet(id),
        forall|x: u128|
            x != id ==> (#[trigger] f.without_bullet(id).is_bullet(x) <==> f.is_bullet(x)),
        forall|x: u128|
            x != id && f.is_bullet(x) ==> #[trigger] f.without_bullet(id).bullet(x) == f.bullet(x),
{
    if f.is_bullet(id) {
        let i = slot(f.bullets, id);
        lemma_slot_some(f.bullets, id);
        lemma_slot_remove(f.bullets, i);
        let g = f.without_bullet(id);
        f.bullets.remove_ensures(i);
        assert forall|k: int| 0 <= k < g.bullets.len() implies #[trigger] slot(
            g.tanks,
            g.bullets[k].owner,
        ) >= 0 && g.bullets[k].bounces < BOUNCE_LIMIT by {
            let k0 = if k < i { k } else { k + 1 };
            assert(g.bullets[k] == f.bullets[k0]);
        }
    }
}

/// A tank put back in play: the engine shows the hull and the turret again.
#[derive(Clone, Copy, Debug, PartialEq, Eq, Structural)]
pub struct Revived {
    pub tank: u128,
    pub turret: u128,
}

/// The tanks and bullets, kept consistent by the operations that use them.
struct Board {
    tanks: Vec<Tank>,
    bullets: Vec<Bullet>,
}

impl View for Board {
    type V = Field;

    closed spec fn view(&self) -> Field {
        Field { tanks: self.tanks@, bullets: self.bullets@ }
    }
}

impl Board {
    fn empty() -> (a: Board)
        ensures
            a@.tanks.len() == 0,
            a@.bullets.len() == 0,
            a@.wf(),
    {
        Board { tanks: Vec::new(), bullets: Vec::new() }
    }

    /// How many tanks there are.
    fn tank_count(&self) -> (n: usize)
        ensures
            n == self@.tanks.len(),
    {
        self.tanks.len()
    }

    /// How many bullets are in flight.
    fn bullet_count(&self) -> (n: usize)
        ensures
            n == self@.bullets.len(),
    {
        self.bullets.len()
    }

    /// Whether `id` is one of the tanks.
    fn has_tank(&self, id: u128) -> (r: bool)
        requires
            self@.wf(),
        ensures
            r == self@.has_tank(id),
    {
        find(&self.tanks, id).is_some()
    }

    /// The tank `id`.
    fn tank(&self, id: u128) -> (t: Tank)
        requires
            self@.wf(),
            self@.has_tank(id),
        ensures
            t == self@.tank(id),
    {
        let i = find(&self.tanks, id).unwrap();
        self.tanks[i]
    }

    /// Whether `id` is a bullet in flight.
    fn is_bullet(&self, id: u128) -> (r: bool)
        requires
            self@.wf(),
        ensures
            r == self@.is_bullet(id),
    {
        find(&self.bullets, id).is_some()
    }

    /// The bullet `id`.
    fn bullet(&self, id: u128) -> (b: Bullet)
        requires
            self@.wf(),
            self@.is_bullet(id),
        ensures
            b == self@.bullet(id),
    {
        let i = find(&self.bullets, id).unwrap();
        self.bullets[i]
    }

    fn put_tank(&mut self, t: Tank)
        requires
            old(self)@.wf(),
            old(self)@.has_tank(t.id),
            t.kills <= COUNT_LIMIT,
            t.deaths <= COUNT_LIMIT,
        ensures
            final(self)@ == old(self)@.with_tank(t),
            final(self)@.wf(),
            forall|id: u128| #[trigger] slot(final(self)@.tanks, id) == slot(old(self)@.tanks, id),
    {
        let i = find(&self.tanks, t.id).unwrap();
        proof {
            lemma_with_tank_wf(self@, t);
        }
        self.tanks.set(i, t);
        assert(self@ =~= old(self)@.with_tank(t));
    }

    /// A player joins at `now` with its hull `id`, turret and aim marker; a
    /// tank of the same id is replaced by the fresh one.
    fn join(&mut self, id: u128, turret: u128, targetter: u128, now: u64)
        requires
            old(self)@.wf(),
        ensures
            final(self)@ == joined(old(self)@, fresh_tank(id, turret, targetter, now)),
            final(self)@.wf(),
    {
        let t = Tank { id, turret, targetter, alive: true, kills: 0, deaths: 0, death_ms: now };
        match find(&self.tanks, id) {
            Some(_) => {
                self.put_tank(t);
            },
            None => {
                proof {
                    lemma_slot_push(self@.tanks, t);
                }
                self.tanks.push(t);
                proof {
                    let f = final(self)@;
                    let o = old(self)@;
                    assert(f.tanks == o.tanks.push(t));
                    assert forall|k: int| 0 <= k < f.tanks.len() implies #[trigger] f.tanks[k].kills
                        <= COUNT_LIMIT && f.tanks[k].deaths <= COUNT_LIMIT by {
                        if k < o.tanks.len() {
                            assert(f.tanks[k] == o.tanks[k]);
                        }
                    }
                    assert forall|k: int| 0 <= k < f.bullets.len() implies #[trigger] slot(
                        f.tanks,
                        f.bullets[k].owner,
                    ) >= 0 by {
                        let w = o.bullets[k].owner;
                        assert(slot(o.tanks, w) >= 0);
                        if w != id {
                            assert(slot(f.tanks, w) == slot(o.tanks, w));
                        }
                    }
                }
            },
        }
    }

    /// Puts the bullet `bullet`, just fired by tank `owner`, in flight with
    /// no bounces; a bullet of the same id is replaced.
    fn launch(&mut self, bullet: u128, owner: u128)
        requires
            old(self)@.wf(),
            old(self)@.has_tank(owner),
        ensures
            final(self)@ == launched(old(self)@, Bullet { id: bullet, owner, bounces: 0 }),
            final(self)@.wf(),
    {
        let b = Bullet { id: bullet, owner, bounces: 0 };
        match find(&self.bullets, bullet) {
            Some(_) => {
                self.put_bullet(b);
            },
            None => {
                proof {
                    lemma_slot_push(self@.bullets, b);
                }
                self.bullets.push(b);
                proof {
                    let f = final(self)@;
                    let o = old(self)@;
                    assert(f.bullets == o.bullets.push(b));
                    assert forall|k: int| 0 <= k < f.bullets.len() implies #[trigger] slot(
                        f.tanks,
                        f.bullets[k].owner,
                    ) >= 0 && f.bullets[k].bounces < BOUNCE_LIMIT by {
                        if k < o.bullets.len() {
                            assert(f.bullets[k] == o.bullets[k]);
                        }
                    }
                }
            },
        }
    }

    /// Player `client` asks to respawn, with the request flag of its message.
    /// With the flag set, the tank is back in play and the engine is told to
    /// show it again; without it, nothing happens.
    fn respawn(&mut self, client: u128, requested: bool) -> (r: Option<Revived>)
        requires
            old(self)@.wf(),
            old(self)@.has_tank(client),
        ensures
            final(self)@ == respawned(old(self)@, client, requested),
            final(self)@.wf(),
            r == (if requested {
                Some(Revived { tank: client, turret: old(self)@.tank(client).turret })
            } else {
                None
            }),
    {
        if requested {
            let t = self.tank(client);
            let t2 = Tank { alive: true, ..t };
            proof {
                lemma_slot_some(self@.tanks, client);
                assert(self@.tanks.contains(t));
            }
            self.put_tank(t2);
            Some(Revived { tank: client, turret: t.turret })
        } else {
            None
        }
    }
    /// A steering message from `client`: see `drive_outcome`. The arena is
    /// left as it is.
    fn drive(
        &self,
        client: Option<u128>,
        aim_hit: bool,
        fire: bool,
        cooled_down: bool,
        drifting: bool,
    ) -> (r: Drive)
        requires
            self@.wf(),
        ensures
            r == drive_outcome(self@, client, aim_hit, fire, cooled_down, drifting),
    {
        let c = match client {
            None => {
                return Drive::Ignored;
            },
            Some(c) => c,
        };
        if !self.has_tank(c) {
            return Drive::Ignored;
        }
        let t = self.tank(c);
        if !t.alive || !aim_hit {
            return Drive::Ignored;
        }
        if fire && !cooled_down {
            return Drive::Aimed { tank: c, turret: t.turret, targetter: t.targetter };
        }
        Drive::Moved { tank: c, turret: t.turret, targetter: t.targetter, fired: fire, grip: !drifting }
    }

    fn put_bullet(&mut self, b: Bullet)
        requires
            old(self)@.wf(),
            old(self)@.is_bullet(b.id),
            old(self)@.has_tank(b.owner),
            b.bounces < BOUNCE_LIMIT,
        ensures
            final(self)@ == old(self)@.with_bullet(b),
            final(self)@.wf(),
    {
        let i = find(&self.bullets, b.id).unwrap();
        proof {
            lemma_with_bullet_wf(self@, b);
        }
        self.bullets.set(i, b);
        assert(self@ =~= old(self)@.with_bullet(b));
    }

    fn remove_bullet(&mut self, id: u128)
        requires
            old(self)@.wf(),
        ensures
            final(self)@ == old(self)@.without_bullet(id),
            final(self)@.wf(),
    {
        proof {
            lemma_without_bullet_wf(self@, id);
        }
        match find(&self.bullets, id) {
            Some(i) => {
                self.bullets.remove(i);
                assert(self@ =~= old(self)@.without_bullet(id));
            },
            None => {},
        }
    }

    /// Bullet `shot` strikes `target` across contact normal `normal`: see `hit_outcome`.
    fn strike(&mut self, shot: u128, target: u128, normal: usize, now: u64, effects: &mut Vec<Effect>)
        requires
            old(self)@.wf(),
            old(self)@.is_bullet(shot),
        ensures
            (final(self)@, final(effects)@) == hit_outcome(
                old(self)@,
                old(effects)@,
                shot,
                target,
                normal,
                now,
            ),
            final(self)@.wf(),
    {
        let ghost f = self@;
        let b = self.bullet(shot);
        proof {
            lemma_slot_some(f.bullets, shot);
            assert(f.bullets[slot(f.bullets, shot)] == b);
        }
        let nb = b.bounces + 1;
        let ghost f1 = f.with_bullet(Bullet { bounces: nb, ..b });
        assert(f1.tanks == f.tanks);
        effects.push(Effect::Deflect { bullet: shot, normal });
        effects.push(Effect::BounceCount { bullet: shot, count: nb });
        let in_play = self.has_tank(target) && self.tank(target).alive;
        if in_play {
            let v = self.tank(target);
            let v2 = Tank { alive: false, death_ms: now, deaths: count_up(v.deaths), ..v };
            proof {
                lemma_slot_some(f.tanks, target);
                assert(f.tanks[slot(f.tanks, target)] == v);
                crate::scoring::count_up_bounded(v.deaths);
                lemma_with_tank_wf(f, v2);
            }
            self.put_tank(v2);
            effects.push(Effect::KnockOut { tank: target });
            effects.push(Effect::Score { tank: target, kills: v2.kills, deaths: v2.deaths });
            let ghost f2 = self@;
            if target != b.owner {
                let w = self.tank(b.owner);
                let w2 = Tank { kills: count_up(w.kills), ..w };
                proof {
                    lemma_slot_some(f2.tanks, b.owner);
                    assert(f2.tanks[slot(f2.tanks, b.owner)] == w);
                    crate::scoring::count_up_bounded(w.kills);
                }
                self.put_tank(w2);
                effects.push(Effect::ForeignHit { shooter: b.owner });
                effects.push(Effect::Score { tank: b.owner, kills: w2.kills, deaths: w2.deaths });
            }
            let ghost f3 = self@;
            self.remove_bullet(shot);
            effects.push(Effect::Explosion { at: shot, blast: Blast::Large });
            effects.push(Effect::Sound { cue: Sound::TankHit, emitter: target });
            effects.push(Effect::Despawn { entity: shot });
            effects.push(Effect::Hide { tank: target, turret: v.turret });
            proof {
                let i = slot(f.bullets, shot);
                lemma_slot_update(f.bullets, i, Bullet { bounces: nb, ..b });
                assert(f.bullets.update(i, Bullet { bounces: nb, ..b }).remove(i) =~= f.bullets.remove(i));
                assert(f1.with_tank(v2).tanks == f2.tanks);
                assert(self@.tanks == hit_outcome(f, old(effects)@, shot, target, normal, now).0.tanks);
                assert(self@ =~= hit_outcome(f, old(effects)@, shot, target, normal, now).0);
            }
        } else {
            effects.push(Effect::Sound { cue: Sound::WallHit, emitter: target });
            effects.push(Effect::MarkNormal { bullet: shot, normal });
            effects.push(Effect::Explosion { at: shot, blast: Blast::Small });
            if nb >= BOUNCE_LIMIT {
                self.remove_bullet(shot);
                effects.push(Effect::Despawn { entity: shot });
                proof {
                    let i = slot(f.bullets, shot);
                    lemma_slot_update(f.bullets, i, Bullet { bounces: nb, ..b });
                    assert(f.bullets.update(i, Bullet { bounces: nb, ..b }).remove(i) =~= f.bullets.remove(i));
                    assert(self@ =~= f1.without_bullet(shot));
                }
            } else {
                proof {
                    assert(f.has_tank(b.owner));
                }
                self.put_bullet(Bullet { bounces: nb, ..b });
            }
        }
    }
    /// The engine reports a contact between the entities `ids` across one or
    /// more contact normals; `repeated[k][i]` tells whether `ids[i]` is a
    /// bullet whose last remembered normal equals normal number `k`. Every
    /// normal is scanned in turn, every entity paired with the next one;
    /// the scan ends at the first bullet that strikes something. See
    /// `contact_outcome` for the result: only the first normal can have an
    /// effect.
    fn resolve_contact(&mut self, ids: &Vec<u128>, repeated: &Vec<Vec<bool>>, now: u64) -> (effects:
        Vec<Effect>)
        requires
            old(self)@.wf(),
            forall|k: int| 0 <= k < repeated@.len() ==> #[trigger] repeated@[k]@.len() == ids@.len(),
        ensures
            (final(self)@, effects@) == contact_outcome(
                old(self)@,
                ids@,
                repeated@.len(),
                if repeated@.len() > 0 {
                    repeated@[0]@
                } else {
                    Seq::empty()
                },
                now,
            ),
            final(self)@.wf(),
    {
        let mut effects: Vec<Effect> = Vec::new();
        let n = ids.len();
        let ghost f0 = self@;
        let ghost first: Seq<bool> = if repeated@.len() > 0 {
            repeated@[0]@
        } else {
            Seq::empty()
        };
        let mut k: usize = 0;
        while k < repeated.len()
            invariant
                self@.wf(),
                n == ids@.len(),
                f0 == old(self)@,
                k <= repeated@.len(),
                repeated@.len() > 0 ==> first == repeated@[0]@,
                forall|q: int| 0 <= q < repeated@.len() ==> #[trigger] repeated@[q]@.len() == ids@.len(),
                k == 0 ==> self@ == f0 && effects@ == Seq::<Effect>::empty(),
                k > 0 ==> (self@, effects@) == scan(f0, Seq::empty(), ids@, first, 0, now),
                k > 0 ==> forall|j: int| 0 <= j < n ==> !self@.is_bullet(#[trigger] ids@[j]),
            decreases repeated@.len() - k,
        {
            let mut i: usize = 0;
            while i < n
                invariant
                    self@.wf(),
                    n == ids@.len(),
                    f0 == old(self)@,
                    k < repeated@.len(),
                    first == repeated@[0]@,
                    repeated@[k as int]@.len() == n,
                    i <= n,
                    k == 0 ==> scan(f0, Seq::empty(), ids@, first, 0, now) == scan(
                        self@,
                        effects@,
                        ids@,
                        first,
                        i as int,
                        now,
                    ),
                    k > 0 ==> (self@, effects@) == scan(f0, Seq::empty(), ids@, first, 0, now),
                    k > 0 ==> forall|j: int| 0 <= j < n ==> !self@.is_bullet(#[trigger] ids@[j]),
                    forall|j: int| 0 <= j < i ==> !self@.is_bullet(#[trigger] ids@[j]),
                decreases n - i,
            {
                let ghost fb = self@;
                let ghost eb = effects@;
                let o = ids[i];
                let nx = ids[(i + 1) % n];
                if self.is_bullet(o) && self.is_bullet(nx) {
                    effects.push(Effect::Explosion { at: o, blast: Blast::Small });
                    effects.push(Effect::Despawn { entity: o });
                    effects.push(Effect::Despawn { entity: nx });
                    proof {
                        lemma_without_bullet_wf(fb, o);
                        lemma_without_bullet_wf(fb.without_bullet(o), nx);
                    }
                    self.remove_bullet(o);
                    self.remove_bullet(nx);
                }
                if self.is_bullet(o) {
                    if repeated[k][i] {
                        return effects;
                    }
                    self.strike(o, nx, k, now, &mut effects);
                    return effects;
                }
                proof {
                    assert(contact_step(fb, eb, ids@, first, i as int, 0, now) == (false, self@, effects@));
                    assert forall|j: int| 0 <= j < i + 1 implies !self@.is_bullet(#[trigger] ids@[j]) by {
                        if j < i {
                            assert(!fb.is_bullet(ids@[j]));
                        }
                    }
                }
                i += 1;
            }
            k += 1;
        }
        effects
    }
}

/// The tanks and bullets of a battle.
pub struct Arena {
    board: Board,
}

impl View for Arena {
    type V = Field;

    closed spec fn view(&self) -> Field {
        self.board@
    }
}

impl Arena {
    /// An arena is always consistent.
    #[verifier::type_invariant]
    spec fn consistent(self) -> bool {
        self.board@.wf()
    }

    /// Takes the board out, leaving an empty one in its place.
    fn take_board(&mut self) -> (b: Board)
        ensures
            b@ == old(self)@,
            b@.wf(),
    {
        proof {
            use_type_invariant(&*self);
        }
        let mut b = Board::empty();
        std::mem::swap(&mut b, &mut self.board);
        b
    }

    /// An arena with no tank and no bullet.
    pub fn new() -> (a: Arena)
        ensures
            a@.tanks.len() == 0,
            a@.bullets.len() == 0,
            a@.wf(),
    {
        Arena { board: Board::empty() }
    }

    /// How many tanks there are.
    pub fn tank_count(&self) -> (n: usize)
        ensures
            n == self@.tanks.len(),
    {
        self.board.tank_count()
    }

    /// How many bullets are in flight.
    pub fn bullet_count(&self) -> (n: usize)
        ensures
            n == self@.bullets.len(),
    {
        self.board.bullet_count()
    }

    /// Whether `id` is one of the tanks.
    pub fn has_tank(&self, id: u128) -> (r: bool)
        ensures
            r == self@.has_tank(id),
    {
        proof {
            use_type_invariant(self);
        }
        self.board.has_tank(id)
    }

    /// The tank `id`.
    pub fn tank(&self, id: u128) -> (t: Tank)
        requires
            self@.has_tank(id),
        ensures
            t == self@.tank(id),
    {
        proof {
            use_type_invariant(self);
        }
        self.board.tank(id)
    }

    /// Whether `id` is a bullet in flight.
    pub fn is_bullet(&self, id: u128) -> (r: bool)
        ensures
            r == self@.is_bullet(id),
    {
        proof {
            use_type_invariant(self);
        }
        self.board.is_bullet(id)
    }

    /// The bullet `id`.
    pub fn bullet(&self, id: u128) -> (b: Bullet)
        requires
            self@.is_bullet(id),
        ensures
            b == self@.bullet(id),
    {
        proof {
            use_type_invariant(self);
        }
        self.board.bullet(id)
    }

    /// A player joins at `now` with its hull `id`, turret and aim marker; a
    /// tank of the same id is replaced by the fresh one.
    pub fn join(&mut self, id: u128, turret: u128, targetter: u128, now: u64)
        ensures
            final(self)@ == joined(old(self)@, fresh_tank(id, turret, targetter, now)),
            final(self)@.wf(),
    {
        let mut b = self.take_board();
        b.join(id, turret, targetter, now);
        self.board = b;
    }

    /// Puts the bullet `bullet`, just fired by tank `owner`, in flight with
    /// no bounces; a bullet of the same id is replaced.
    pub fn launch(&mut self, bullet: u128, owner: u128)
        requires
            old(self)@.has_tank(owner),
        ensures
            final(self)@ == launched(old(self)@, Bullet { id: bullet, owner, bounces: 0 }),
            final(self)@.wf(),
    {
        let mut b = self.take_board();
        b.launch(bullet, owner);
        self.board = b;
    }

    /// Player `client` asks to respawn, with the request flag of its message.
    /// With the flag set, the tank is back in play and the engine is told to
    /// show it again; without it, nothing happens.
    pub fn respawn(&mut self, client: u128, requested: bool) -> (r: Option<Revived>)
        requires
            old(self)@.has_tank(client),
        ensures
            final(self)@ == respawned(old(self)@, client, requested),
            final(self)@.wf(),
            r == (if requested {
                Some(Revived { tank: client, turret: old(self)@.tank(client).turret })
            } else {
                None
            }),
    {
        let mut b = self.take_board();
        let r = b.respawn(client, requested);
        self.board = b;
        r
    }

    /// A steering message from `client`: see `drive_outcome`. The arena is
    /// left as it is.
    pub fn drive(
        &self,
        client: Option<u128>,
        aim_hit: bool,
        fire: bool,
        cooled_down: bool,
        drifting: bool,
    ) -> (r: Drive)
        ensures
            r == drive_outcome(self@, client, aim_hit, fire, cooled_down, drifting),
    {
        proof {
            use_type_invariant(self);
        }
        self.board.drive(client, aim_hit, fire, cooled_down, drifting)
    }

    /// The engine reports a contact between the entities `ids` across one or
    /// more contact normals; `repeated[k][i]` tells whether `ids[i]` is a
    /// bullet whose last remembered normal equals normal number `k`. Every
    /// normal is scanned in turn, every entity paired with the next one;
    /// the scan ends at the first bullet that strikes something. See
    /// `contact_outcome` for the result: only the first normal can have an
    /// effect.
    pub fn resolve_contact(&mut self, ids: &Vec<u128>, repeated: &Vec<Vec<bool>>, now: u64) -> (effects:
        Vec<Effect>)
        requires
            forall|k: int| 0 <= k < repeated@.len() ==> #[trigger] repeated@[k]@.len() == ids@.len(),
        ensures
            (final(self)@, effects@) == contact_outcome(
                old(self)@,
                ids@,
                repeated@.len(),
                if repeated@.len() > 0 {
                    repeated@[0]@
                } else {
                    Seq::empty()
                },
                now,
            ),
            final(self)@.wf(),
    {
        let mut b = self.take_board();
        let effects = b.resolve_contact(ids, repeated, now);
        self.board = b;
        effects
    }
}

/// Sum of the kill counters.
pub open spec fn total_kills(s: Seq<Tank>) -> int
    decreases s.len(),
{
    if s.len() == 0 {
        0
    } else {
        total_kills(s.drop_last()) + s.last().kills
    }
}

/// Sum of the death counters.
pub open spec fn total_deaths(s: Seq<Tank>) -> int
    decreases s.len(),
{
    if s.len() == 0 {
        0
    } else {
        total_deaths(s.drop_last()) + s.last().deaths
    }
}

/// No more kills were ever credited than deaths were counted.
pub open spec fn balanced(f: Field) -> bool {
    total_kills(f.tanks) <= total_deaths(f.tanks)
}

/// No death counter has reached its limit.
pub open spec fn deaths_below_limit(f: Field) -> bool {
    forall|i: int| 0 <= i < f.tanks.len() ==> #[trigger] f.tanks[i].deaths < COUNT_LIMIT
}

proof fn lemma_totals_update(s: Seq<Tank>, i: int, t: Tank)
    requires
        0 <= i < s.len(),
    ensures
        total_kills(s.update(i, t)) == total_kills(s) - s[i].kills + t.kills,
        total_deaths(s.update(i, t)) == total_deaths(s) - s[i].deaths + t.deaths,
    decreases s.len(),
{
    let s2 = s.update(i, t);
    if i == s.len() - 1 {
        assert(s2.drop_last() =~= s.drop_last());
    } else {
        lemma_totals_update(s.drop_last(), i, t);
        assert(s2.drop_last() =~= s.drop_last().update(i, t));
    }
}

proof fn lemma_totals_push(s: Seq<Tank>, t: Tank)
    ensures
        total_kills(s.push(t)) == total_kills(s) + t.kills,
        total_deaths(s.push(t)) == total_deaths(s) + t.deaths,
{
    assert(s.push(t).drop_last() =~= s);
}

proof fn lemma_with_tank_totals(f: Field, t: Tank)
    requires
        f.has_tank(t.id),
    ensures
        total_kills(f.with_tank(t).tanks) == total_kills(f.tanks) - f.tank(t.id).kills + t.kills,
        total_deaths(f.with_tank(t).tanks) == total_deaths(f.tanks) - f.tank(t.id).deaths
            + t.deaths,
{
    lemma_slot_some(f.tanks, t.id);
    lemma_totals_update(f.tanks, slot(f.tanks, t.id), t);
}

/// A player joining with a new id keeps the kills within the deaths.
pub proof fn join_keeps_balance(f: Field, id: u128, turret: u128, targetter: u128, now: u64)
    requires
        f.wf(),
        balanced(f),
        !f.has_tank(id),
    ensures
        balanced(joined(f, fresh_tank(id, turret, targetter, now))),
{
    lemma_totals_push(f.tanks, fresh_tank(id, turret, targetter, now));
}

/// Putting a bullet in flight leaves every score alone.
pub proof fn launch_keeps_scores(f: Field, bullet: u128, owner: u128)
    ensures
        launched(f, Bullet { id: bullet, owner, bounces: 0 }).tanks == f.tanks,
{
}

/// A respawn leaves every score alone, so it keeps the kills within the deaths.
pub proof fn respawn_keeps_balance(f: Field, id: u128, requested: bool)
    requires
        f.wf(),
        f.has_tank(id),
        balanced(f),
    ensures
        balanced(respawned(f, id, requested)),
        total_kills(respawned(f, id, requested).tanks) == total_kills(f.tanks),
        total_deaths(respawned(f, id, requested).tanks) == total_deaths(f.tanks),
{
    if requested {
        lemma_with_tank_totals(f, Tank { alive: true, ..f.tank(id) });
    }
}

proof fn lemma_hit_balance(f: Field, effs: Seq<Effect>, shot: u128, target: u128, normal: usize, now: u64)
    requires
        f.wf(),
        f.is_bullet(shot),
        balanced(f),
        deaths_below_limit(f),
    ensures
        balanced(hit_outcome(f, effs, shot, target, normal, now).0),
{
    let b = f.bullet(shot);
    let nb = (b.bounces + 1) as u32;
    let f1 = f.with_bullet(Bullet { bounces: nb, ..b });
    assert(f1.tanks == f.tanks);
    if f1.in_play(target) {
        let v = f1.tank(target);
        let v2 = Tank { alive: false, death_ms: now, deaths: spec_count_up(v.deaths), ..v };
        lemma_slot_some(f.tanks, target);
        assert(v.deaths < COUNT_LIMIT);
        lemma_with_tank_totals(f1, v2);
        let f2 = f1.with_tank(v2);
        lemma_slot_update(f.tanks, slot(f.tanks, target), v2);
        lemma_slot_some(f.bullets, shot);
        assert(f.has_tank(b.owner));
        assert(f2.has_tank(b.owner));
        let w = f2.tank(b.owner);
        let w2 = Tank { kills: spec_count_up(w.kills), ..w };
        if target != b.owner {
            lemma_with_tank_totals(f2, w2);
        }
    }
}

proof fn lemma_scan_balance(f: Field, effs: Seq<Effect>, ids: Seq<u128>, rep: Seq<bool>, i: int, now: u64)
    requires
        f.wf(),
        balanced(f),
        deaths_below_limit(f),
    ensures
        balanced(scan(f, effs, ids, rep, i, now).0),
    decreases ids.len() - i,
{
    if 0 <= i < ids.len() {
        let o = ids[i];
        let nx = ids[(i + 1) % (ids.len() as int)];
        if f.is_bullet(o) && f.is_bullet(nx) {
            lemma_without_bullet_wf(f, o);
            lemma_without_bullet_wf(f.without_bullet(o), nx);
            lemma_scan_balance(
                f.without_bullet(o).without_bullet(nx),
                contact_step(f, effs, ids, rep, i, 0, now).2,
                ids,
                rep,
                i + 1,
                now,
            );
        } else if f.is_bullet(o) {
            if !rep[i] {
                lemma_hit_balance(f, effs, o, nx, 0, now);
            }
        } else {
            lemma_scan_balance(f, effs, ids, rep, i + 1, now);
        }
    }
}

/// A contact keeps the kills within the deaths: a bullet that knocks a tank
/// out adds one death, and at most one kill (none where the shooter hit
/// itself). Stated for arenas where no death counter is at its limit, since
/// a saturated counter no longer counts.
pub proof fn contact_keeps_balance(
    f: Field,
    ids: Seq<u128>,
    normals: nat,
    first_repeated: Seq<bool>,
    now: u64,
)
    requires
        f.wf(),
        balanced(f),
        deaths_below_limit(f),
    ensures
        balanced(contact_outcome(f, ids, normals, first_repeated, now).0),
{
    if normals > 0 {
        lemma_scan_balance(f, Seq::empty(), ids, first_repeated, 0, now);
    }
}

/// A tank that is not in play (never joined, or knocked out) can neither aim,
/// fire nor move: its steering messages are ignored.
pub proof fn knocked_out_tank_is_ignored(
    f: Field,
    c: u128,
    aim_hit: bool,
    fire: bool,
    cooled_down: bool,
    drifting: bool,
)
    requires
        !f.in_play(c),
    ensures
        drive_outcome(f, Some(c), aim_hit, fire, cooled_down, drifting) == Drive::Ignored,
{
}

/// A tank fires only once its cooldown is over: holding fire before then
/// fires nothing and does not move the tank either.
pub proof fn no_shot_while_cooling_down(
    f: Field,
    client: Option<u128>,
    aim_hit: bool,
    drifting: bool,
)
    ensures
        !(drive_outcome(f, client, aim_hit, true, false, drifting) is Moved),
{
}

/// A respawn request puts the tank back in play and touches nothing else of
/// it; a message without the request changes nothing.
pub proof fn respawn_restores_play(f: Field, c: u128)
    requires
        f.wf(),
        f.has_tank(c),
    ensures
        respawned(f, c, true).wf(),
        respawned(f, c, true).in_play(c),
        respawned(f, c, true).tank(c) == (Tank { alive: true, ..f.tank(c) }),
        respawned(f, c, false) == f,
{
    lemma_with_tank_wf(f, Tank { alive: true, ..f.tank(c) });
}

/// Every bullet in flight has a bounce left: a bullet is gone at the latest
/// when it bounces for the third time.
pub proof fn bullet_has_bounce_left(f: Field, b: u128)
    requires
        f.wf(),
        f.is_bullet(b),
    ensures
        f.bullet(b).bounces < BOUNCE_LIMIT,
{
    lemma_slot_some(f.bullets, b);
}

proof fn lemma_with_tank_lookup(f: Field, t: Tank, x: u128)
    requires
        f.wf(),
        f.has_tank(t.id),
    ensures
        f.with_tank(t).has_tank(x) == f.has_tank(x),
        f.has_tank(x) ==> f.with_tank(t).tank(x) == (if x == t.id {
            t
        } else {
            f.tank(x)
        }),
{
    lemma_slot_some(f.tanks, t.id);
    lemma_slot_update(f.tanks, slot(f.tanks, t.id), t);
    if f.has_tank(x) {
        lemma_slot_some(f.tanks, x);
    }
}

proof fn lemma_hit_shrinks(
    f: Field,
    effs: Seq<Effect>,
    shot: u128,
    target: u128,
    normal: usize,
    now: u64,
    x: u128,
)
    requires
        f.wf(),
        f.is_bullet(shot),
    ensures
        hit_outcome(f, effs, shot, target, normal, now).0.in_play(x) ==> f.in_play(x),
        hit_outcome(f, effs, shot, target, normal, now).0.is_bullet(x) ==> f.is_bullet(x),
        hit_outcome(f, effs, shot, target, normal, now).0.wf(),
{
    let b = f.bullet(shot);
    let nb = (b.bounces + 1) as u32;
    let nbul = Bullet { bounces: nb, ..b };
    let f1 = f.with_bullet(nbul);
    lemma_slot_some(f.bullets, shot);
    lemma_slot_update(f.bullets, slot(f.bullets, shot), nbul);
    assert(f1.tanks == f.tanks);
    assert(f.has_tank(b.owner));
    if f1.in_play(target) {
        let v = f1.tank(target);
        let v2 = Tank { alive: false, death_ms: now, deaths: spec_count_up(v.deaths), ..v };
        lemma_slot_some(f.tanks, target);
        crate::scoring::count_up_bounded(v.deaths);
        lemma_with_tank_wf(f, v2);
        lemma_with_tank_lookup(f, v2, x);
        lemma_with_tank_lookup(f, v2, b.owner);
        let f2 = f.with_tank(v2);
        assert(f1.with_tank(v2).tanks == f2.tanks);
        let w = f2.tank(b.owner);
        let w2 = Tank { kills: spec_count_up(w.kills), ..w };
        let f3 = if target != b.owner {
            f2.with_tank(w2)
        } else {
            f2
        };
        if target != b.owner {
            lemma_slot_some(f2.tanks, b.owner);
            crate::scoring::count_up_bounded(w.kills);
            lemma_with_tank_wf(f2, w2);
            lemma_with_tank_lookup(f2, w2, x);
        }
        lemma_without_bullet_wf(f3, shot);
        let g = f1.with_tank(v2);
        let g3 = if target != b.owner {
            g.with_tank(w2)
        } else {
            g
        };
        assert(g3.tanks == f3.tanks);
        assert(g3.without_bullet(shot).tanks == f3.tanks);
        if g3.without_bullet(shot).is_bullet(x) {
            lemma_slot_remove(f.bullets.update(slot(f.bullets, shot), nbul), slot(f.bullets, shot));
            if x != shot {
                assert(f1.is_bullet(x));
            }
        }
        lemma_slot_remove(f.bullets.update(slot(f.bullets, shot), nbul), slot(f.bullets, shot));
        f.bullets.update(slot(f.bullets, shot), nbul).remove_ensures(slot(f.bullets, shot));
        assert(f.bullets.update(slot(f.bullets, shot), nbul).remove(slot(f.bullets, shot))
            =~= f.bullets.remove(slot(f.bullets, shot)));
        assert(g3.without_bullet(shot) =~= f3.without_bullet(shot));
    } else {
        if nb >= BOUNCE_LIMIT {
            lemma_without_bullet_wf(f, shot);
            assert(f.bullets.update(slot(f.bullets, shot), nbul).remove(slot(f.bullets, shot))
                =~= f.bullets.remove(slot(f.bullets, shot)));
            assert(f1.without_bullet(shot) =~= f.without_bullet(shot));
        } else {
            lemma_with_bullet_wf(f, nbul);
        }
    }
}

proof fn lemma_scan_shrinks(
    f: Field,
    effs: Seq<Effect>,
    ids: Seq<u128>,
    rep: Seq<bool>,
    i: int,
    now: u64,
    x: u128,
)
    requires
        f.wf(),
    ensures
        scan(f, effs, ids, rep, i, now).0.in_play(x) ==> f.in_play(x),
        scan(f, effs, ids, rep, i, now).0.is_bullet(x) ==> f.is_bullet(x),
    decreases ids.len() - i,
{
    if 0 <= i < ids.len() {
        let o = ids[i];
        let nx = ids[(i + 1) % (ids.len() as int)];
        if f.is_bullet(o) && f.is_bullet(nx) {
            lemma_without_bullet_wf(f, o);
            lemma_without_bullet_wf(f.without_bullet(o), nx);
            lemma_scan_shrinks(
                f.without_bullet(o).without_bullet(nx),
                contact_step(f, effs, ids, rep, i, 0, now).2,
                ids,
                rep,
                i + 1,
                now,
                x,
            );
        } else if f.is_bullet(o) {
            if !rep[i] {
                lemma_hit_shrinks(f, effs, o, nx, 0, now, x);
            }
        } else {
            lemma_scan_shrinks(f, effs, ids, rep, i + 1, now, x);
        }
    }
}

/// A contact never brings a tank into play and never puts a bullet in
/// flight: tanks only leave play, bullets only disappear. Together with
/// `knocked_out_tank_is_ignored`, a knocked-out tank stays out of the fight
/// until its player respawns.
pub proof fn contact_only_takes_away(
    f: Field,
    ids: Seq<u128>,
    normals: nat,
    first_repeated: Seq<bool>,
    now: u64,
    x: u128,
)
    requires
        f.wf(),
    ensures
        contact_outcome(f, ids, normals, first_repeated, now).0.in_play(x) ==> f.in_play(x),
        contact_outcome(f, ids, normals, first_repeated, now).0.is_bullet(x) ==> f.is_bullet(x),
{
    if normals > 0 {
        lemma_scan_shrinks(f, Seq::empty(), ids, first_repeated, 0, now, x);
    }
}

/// A tank in play whose aim ray hits something, with fire not held, turns
/// and is pushed whatever the cooldown reads: it fires nothing, and it grips
/// exactly when its player is not drifting.
pub proof fn drive_without_fire_moves(f: Field, c: u128, cooled_down: bool, drifting: bool)
    requires
        f.in_play(c),
    ensures
        drive_outcome(f, Some(c), true, false, cooled_down, drifting) == (Drive::Moved {
            tank: c,
            turret: f.tank(c).turret,
            targetter: f.tank(c).targetter,
            fired: false,
            grip: !drifting,
        }),
{
}

/// With fire held and the cooldown over, a tank in play whose aim ray hits
/// fires and moves, gripping exactly when not drifting.
pub proof fn drive_fires_when_cooled_down(f: Field, c: u128, drifting: bool)
    requires
        f.in_play(c),
    ensures
        drive_outcome(f, Some(c), true, true, true, drifting) == (Drive::Moved {
            tank: c,
            turret: f.tank(c).turret,
            targetter: f.tank(c).targetter,
            fired: true,
            grip: !drifting,
        }),
{
}

/// The only answer that aims without moving is fire held during the
/// cooldown by a tank in play whose aim ray hits; the cooldown reading
/// matters for nothing else.
pub proof fn drive_aims_only_while_cooling_down(
    f: Field,
    client: Option<u128>,
    aim_hit: bool,
    fire: bool,
    cooled_down: bool,
    drifting: bool,
)
    ensures
        client is None ==> drive_outcome(f, client, aim_hit, fire, cooled_down, drifting)
            == Drive::Ignored,
        !aim_hit ==> drive_outcome(f, client, aim_hit, fire, cooled_down, drifting)
            == Drive::Ignored,
        drive_outcome(f, client, aim_hit, fire, cooled_down, drifting) is Aimed <==> (fire
            && !cooled_down && aim_hit && client is Some && f.in_play(client->0)),
        !fire ==> drive_outcome(f, client, aim_hit, fire, cooled_down, drifting) == drive_outcome(
            f,
            client,
            aim_hit,
            fire,
            !cooled_down,
            drifting,
        ),
        drive_outcome(f, client, aim_hit, fire, cooled_down, drifting) matches Drive::Moved {
            tank,
            fired,
            grip,
            ..
        } ==> client == Some(tank) && fired == fire && grip == !drifting,
{
}

/// After a launch the bullet is in flight, owned by the tank that fired it,
/// with no bounces; every other bullet and every tank is as before.
pub proof fn launch_puts_bullet_in_flight(f: Field, bullet: u128, owner: u128)
    requires
        f.wf(),
        f.has_tank(owner),
    ensures
        launched(f, Bullet { id: bullet, owner, bounces: 0 }).wf(),
        launched(f, Bullet { id: bullet, owner, bounces: 0 }).is_bullet(bullet),
        launched(f, Bullet { id: bullet, owner, bounces: 0 }).bullet(bullet) == (Bullet {
            id: bullet,
            owner,
            bounces: 0,
        }),
        launched(f, Bullet { id: bullet, owner, bounces: 0 }).tanks == f.tanks,
        forall|x: u128|
            x != bullet ==> (#[trigger] launched(f, Bullet { id: bullet, owner, bounces: 0 }).is_bullet(x)
                <==> f.is_bullet(x)),
        forall|x: u128|
            x != bullet && f.is_bullet(x) ==> #[trigger] launched(
                f,
                Bullet { id: bullet, owner, bounces: 0 },
            ).bullet(x) == f.bullet(x),
{
    let b = Bullet { id: bullet, owner, bounces: 0 };
    if f.is_bullet(bullet) {
        lemma_slot_some(f.bullets, bullet);
        lemma_with_bullet_wf(f, b);
        let g = f.with_bullet(b);
        lemma_slot_update(f.bullets, slot(f.bullets, bullet), b);
        assert forall|x: u128| x != bullet && f.is_bullet(x) implies #[trigger] g.bullet(x) == f.bullet(x) by {
            lemma_slot_some(f.bullets, x);
        }
    } else {
        lemma_slot_push(f.bullets, b);
        let g = launched(f, b);
        assert(g.bullets == f.bullets.push(b));
        assert forall|k: int| 0 <= k < g.bullets.len() implies #[trigger] slot(
            g.tanks,
            g.bullets[k].owner,
        ) >= 0 && g.bullets[k].bounces < BOUNCE_LIMIT by {
            if k < f.bullets.len() {
                assert(g.bullets[k] == f.bullets[k]);
            }
        }
        assert forall|x: u128| x != bullet && f.is_bullet(x) implies #[trigger] g.bullet(x) == f.bullet(x) by {
            lemma_slot_some(f.bullets, x);
        }
    }
}

/// After a player joins, its tank is in play with the given turret and aim
/// marker, no kills, no deaths, and the joining time as its time of death;
/// every other tank and every bullet is as before.
pub proof fn join_gives_fresh_tank(f: Field, id: u128, turret: u128, targetter: u128, now: u64)
    requires
        f.wf(),
    ensures
        joined(f, fresh_tank(id, turret, targetter, now)).wf(),
        joined(f, fresh_tank(id, turret, targetter, now)).in_play(id),
        joined(f, fresh_tank(id, turret, targetter, now)).tank(id) == (Tank {
            id,
            turret,
            targetter,
            alive: true,
            kills: 0,
            deaths: 0,
            death_ms: now,
        }),
        joined(f, fresh_tank(id, turret, targetter, now)).bullets == f.bullets,
        forall|x: u128|
            x != id ==> (#[trigger] joined(f, fresh_tank(id, turret, targetter, now)).has_tank(x)
                <==> f.has_tank(x)),
        forall|x: u128|
            x != id && f.has_tank(x) ==> #[trigger] joined(
                f,
                fresh_tank(id, turret, targetter, now),
            ).tank(x) == f.tank(x),
{
    let t = fresh_tank(id, turret, targetter, now);
    if f.has_tank(id) {
        lemma_with_tank_wf(f, t);
        assert forall|x: u128| x != id implies (#[trigger] f.with_tank(t).has_tank(x) <==> f.has_tank(x))
            && (f.has_tank(x) ==> f.with_tank(t).tank(x) == f.tank(x)) by {
            lemma_with_tank_lookup(f, t, x);
        }
    } else {
        lemma_slot_push(f.tanks, t);
        let g = joined(f, t);
        assert(g.tanks == f.tanks.push(t));
        assert forall|k: int| 0 <= k < g.tanks.len() implies #[trigger] g.tanks[k].kills
            <= COUNT_LIMIT && g.tanks[k].deaths <= COUNT_LIMIT by {
            if k < f.tanks.len() {
                assert(g.tanks[k] == f.tanks[k]);
            }
        }
        assert forall|k: int| 0 <= k < g.bullets.len() implies #[trigger] slot(
            g.tanks,
            g.bullets[k].owner,
        ) >= 0 by {
            let w = f.bullets[k].owner;
            assert(slot(f.tanks, w) >= 0);
        }
        assert forall|x: u128| x != id && f.has_tank(x) implies #[trigger] g.tank(x) == f.tank(x) by {
            lemma_slot_some(f.tanks, x);
        }
    }
}

/// The tank `target` after a knock-out at `now`.
spec fn knocked(t: Tank, now: u64) -> Tank {
    Tank { alive: false, death_ms: now, deaths: spec_count_up(t.deaths), ..t }
}

/// The tank `t` credited with one more kill.
spec fn credited(t: Tank) -> Tank {
    Tank { kills: spec_count_up(t.kills), ..t }
}

proof fn lemma_scan_skip(f: Field, effs: Seq<Effect>, ids: Seq<u128>, rep: Seq<bool>, i: int, k: int, now: u64)
    requires
        0 <= i <= k <= ids.len(),
        forall|j: int| i <= j < k ==> !f.is_bullet(#[trigger] ids[j]),
    ensures
        scan(f, effs, ids, rep, i, now) == scan(f, effs, ids, rep, k, now),
    decreases k - i,
{
    if i < k {
        assert(!f.is_bullet(ids[i]));
        lemma_scan_skip(f, effs, ids, rep, i + 1, k, now);
    }
}

/// The partner of position `p` in a contact: the next entity, the last one
/// paired with the first.
pub open spec fn partner(ids: Seq<u128>, p: int) -> u128 {
    ids[(p + 1) % (ids.len() as int)]
}

proof fn lemma_first_bullet(f: Field, ids: Seq<u128>, normals: nat, rep: Seq<bool>, now: u64, p: int)
    requires
        normals > 0,
        0 <= p < ids.len(),
        forall|j: int| 0 <= j < p ==> !f.is_bullet(#[trigger] ids[j]),
        f.is_bullet(ids[p]),
        !f.is_bullet(partner(ids, p)),
    ensures
        rep[p] ==> contact_outcome(f, ids, normals, rep, now) == (f, Seq::<Effect>::empty()),
        !rep[p] ==> contact_outcome(f, ids, normals, rep, now) == hit_outcome(
            f,
            Seq::empty(),
            ids[p],
            partner(ids, p),
            0,
            now,
        ),
{
    lemma_scan_skip(f, Seq::empty(), ids, rep, 0, p, now);
}

/// A contact in which no entity is a bullet in flight changes nothing and
/// has no effect.
pub proof fn contact_without_bullets_is_quiet(
    f: Field,
    ids: Seq<u128>,
    normals: nat,
    first_repeated: Seq<bool>,
    now: u64,
)
    requires
        forall|j: int| 0 <= j < ids.len() ==> !f.is_bullet(#[trigger] ids[j]),
    ensures
        contact_outcome(f, ids, normals, first_repeated, now) == (f, Seq::<Effect>::empty()),
{
    if normals > 0 {
        lemma_scan_skip(f, Seq::empty(), ids, first_repeated, 0, ids.len() as int, now);
    }
}

proof fn lemma_knockout_parts(f: Field, effs: Seq<Effect>, shot: u128, target: u128, now: u64)
    requires
        f.wf(),
        f.is_bullet(shot),
        f.in_play(target),
    ensures
        ({
            let owner = f.bullet(shot).owner;
            let g = f.with_tank(knocked(f.tank(target), now));
            let h = if target != owner {
                g.with_tank(credited(g.tank(owner)))
            } else {
                g
            };
            &&& g.wf()
            &&& h.wf()
            &&& hit_outcome(f, effs, shot, target, 0, now).0.tanks == h.tanks
            &&& !hit_outcome(f, effs, shot, target, 0, now).0.is_bullet(shot)
        }),
        hit_outcome(f, effs, shot, target, 0, now).0.wf(),
        hit_outcome(f, effs, shot, target, 0, now).1.len() >= effs.len() + 4,
        hit_outcome(f, effs, shot, target, 0, now).1[effs.len() + 2int] == (Effect::KnockOut {
            tank: target,
        }),
{
    let b = f.bullet(shot);
    let owner = b.owner;
    let i = slot(f.bullets, shot);
    let nbul = Bullet { bounces: (b.bounces + 1) as u32, ..b };
    lemma_slot_some(f.bullets, shot);
    lemma_slot_update(f.bullets, i, nbul);
    lemma_slot_some(f.tanks, target);
    let v2 = knocked(f.tank(target), now);
    crate::scoring::count_up_bounded(f.tank(target).deaths);
    lemma_with_tank_wf(f, v2);
    let g = f.with_tank(v2);
    assert(f.has_tank(owner));
    lemma_with_tank_lookup(f, v2, owner);
    if target != owner {
        lemma_slot_some(g.tanks, owner);
        crate::scoring::count_up_bounded(g.tank(owner).kills);
        lemma_with_tank_wf(g, credited(g.tank(owner)));
    }
    lemma_hit_shrinks(f, effs, shot, target, 0, now, shot);
    let bu = f.bullets.update(i, nbul);
    lemma_slot_remove(bu, i);
}

/// The first bullet in flight of a contact, at position `p`, paired with a
/// tank in play (and not just bounced off the contact's first normal),
/// knocks that tank out,
/// whatever its bounce count: the tank leaves play with one more death, its
/// time of death is now, and the bullet is gone. The bullet's owner gets one
/// more kill unless it shot itself; no other tank changes. (Counters at their
/// limit stay put.)
pub proof fn bullet_knocks_out_tank(
    f: Field,
    ids: Seq<u128>,
    normals: nat,
    first_repeated: Seq<bool>,
    now: u64,
    p: int,
)
    requires
        f.wf(),
        normals > 0,
        0 <= p < ids.len(),
        forall|j: int| 0 <= j < p ==> !f.is_bullet(#[trigger] ids[j]),
        f.is_bullet(ids[p]),
        !f.is_bullet(partner(ids, p)),
        f.in_play(partner(ids, p)),
        !first_repeated[p],
    ensures
        ({
            let out = contact_outcome(f, ids, normals, first_repeated, now);
            let t = partner(ids, p);
            let owner = f.bullet(ids[p]).owner;
            &&& out.0.wf()
            &&& out.0.has_tank(t) && !out.0.in_play(t)
            &&& out.0.tank(t).death_ms == now
            &&& out.0.tank(t).turret == f.tank(t).turret
            &&& f.tank(t).deaths < COUNT_LIMIT ==> out.0.tank(t).deaths == f.tank(t).deaths + 1
            &&& f.tank(t).deaths == COUNT_LIMIT ==> out.0.tank(t).deaths == f.tank(t).deaths
            &&& out.0.tank(t).kills == f.tank(t).kills
            &&& owner != t && f.tank(owner).kills < COUNT_LIMIT ==> out.0.tank(owner).kills
                == f.tank(owner).kills + 1
            &&& owner != t ==> out.0.tank(owner).deaths == f.tank(owner).deaths
                && out.0.tank(owner).alive == f.tank(owner).alive
            &&& !out.0.is_bullet(ids[p])
            &&& out.1.contains(Effect::KnockOut { tank: t })
            &&& forall|x: u128|
                x != t && x != owner ==> (#[trigger] out.0.has_tank(x) <==> f.has_tank(x))
                    && (f.has_tank(x) ==> out.0.tank(x) == f.tank(x))
        }),
{
    let shot = ids[p];
    let t = partner(ids, p);
    let owner = f.bullet(shot).owner;
    lemma_first_bullet(f, ids, normals, first_repeated, now, p);
    lemma_knockout_parts(f, Seq::empty(), shot, t, now);
    let out = contact_outcome(f, ids, normals, first_repeated, now);
    assert(out.1[2] == Effect::KnockOut { tank: t });
    let v2 = knocked(f.tank(t), now);
    let g = f.with_tank(v2);
    lemma_slot_some(f.bullets, shot);
    assert(f.has_tank(owner));
    lemma_slot_some(f.tanks, t);
    crate::scoring::count_up_bounded(f.tank(t).deaths);
    lemma_with_tank_wf(f, v2);
    lemma_with_tank_lookup(f, v2, t);
    lemma_with_tank_lookup(f, v2, owner);
    assert forall|x: u128| x != t && x != owner implies (#[trigger] out.0.has_tank(x)
        <==> f.has_tank(x)) && (f.has_tank(x) ==> out.0.tank(x) == f.tank(x)) by {
        lemma_with_tank_lookup(f, v2, x);
        if t != owner {
            lemma_slot_some(g.tanks, owner);
            crate::scoring::count_up_bounded(g.tank(owner).kills);
            lemma_with_tank_lookup(g, credited(g.tank(owner)), x);
        }
    }
    if t != owner {
        lemma_slot_some(g.tanks, owner);
        crate::scoring::count_up_bounded(g.tank(owner).kills);
        lemma_with_tank_lookup(g, credited(g.tank(owner)), t);
        lemma_with_tank_lookup(g, credited(g.tank(owner)), owner);
    }
}

/// The first bullet in flight of a contact, at position `p`, paired with
/// anything other than a tank in play or a bullet (and not just bounced off
/// the contact's first normal), bounces off it: no tank and no other bullet
/// changes, and the bullet either flies
/// on with one more bounce and the same owner, or is gone where that was its
/// third bounce.
pub proof fn bullet_bounces_off_the_rest(
    f: Field,
    ids: Seq<u128>,
    normals: nat,
    first_repeated: Seq<bool>,
    now: u64,
    p: int,
)
    requires
        f.wf(),
        normals > 0,
        0 <= p < ids.len(),
        forall|j: int| 0 <= j < p ==> !f.is_bullet(#[trigger] ids[j]),
        f.is_bullet(ids[p]),
        !f.is_bullet(partner(ids, p)),
        !f.in_play(partner(ids, p)),
        !first_repeated[p],
    ensures
        ({
            let out = contact_outcome(f, ids, normals, first_repeated, now).0;
            let b = f.bullet(ids[p]);
            &&& out.wf()
            &&& out.tanks == f.tanks
            &&& forall|x: u128| x != ids[p] ==> (#[trigger] out.is_bullet(x) <==> f.is_bullet(x))
            &&& b.bounces + 1 < BOUNCE_LIMIT ==> out.is_bullet(ids[p]) && out.bullet(ids[p]) == (
            Bullet { bounces: (b.bounces + 1) as u32, ..b })
            &&& b.bounces + 1 >= BOUNCE_LIMIT ==> !out.is_bullet(ids[p])
        }),
{
    let shot = ids[p];
    lemma_first_bullet(f, ids, normals, first_repeated, now, p);
    lemma_hit_shrinks(f, Seq::empty(), shot, partner(ids, p), 0, now, shot);
    let b = f.bullet(shot);
    let i = slot(f.bullets, shot);
    let nbul = Bullet { bounces: (b.bounces + 1) as u32, ..b };
    lemma_slot_some(f.bullets, shot);
    lemma_slot_update(f.bullets, i, nbul);
    lemma_slot_remove(f.bullets.update(i, nbul), i);
}

/// The first bullet in flight of a contact, paired with something that is not
/// a bullet across the very normal it bounced off last time, is left alone:
/// the contact changes nothing and has no effect.
pub proof fn repeated_normal_is_ignored(
    f: Field,
    ids: Seq<u128>,
    normals: nat,
    first_repeated: Seq<bool>,
    now: u64,
    p: int,
)
    requires
        normals > 0,
        0 <= p < ids.len(),
        forall|j: int| 0 <= j < p ==> !f.is_bullet(#[trigger] ids[j]),
        f.is_bullet(ids[p]),
        !f.is_bullet(partner(ids, p)),
        first_repeated[p],
    ensures
        contact_outcome(f, ids, normals, first_repeated, now) == (f, Seq::<Effect>::empty()),
{
    lemma_first_bullet(f, ids, normals, first_repeated, now, p);
}

/// Two bullets that meet destroy each other and change no tank.
pub proof fn bullets_destroy_each_other(
    f: Field,
    a: u128,
    b: u128,
    normals: nat,
    first_repeated: Seq<bool>,
    now: u64,
)
    requires
        f.wf(),
        normals > 0,
        f.is_bullet(a),
        f.is_bullet(b),
        a != b,
    ensures
        ({
            let out = contact_outcome(f, seq![a, b], normals, first_repeated, now).0;
            &&& out.wf()
            &&& out.tanks == f.tanks
            &&& !out.is_bullet(a) && !out.is_bullet(b)
            &&& forall|x: u128|
                x != a && x != b ==> (#[trigger] out.is_bullet(x) <==> f.is_bullet(x))
        }),
{
    let ids = seq![a, b];
    lemma_without_bullet_wf(f, a);
    let g = f.without_bullet(a);
    lemma_without_bullet_wf(g, b);
    let h = g.without_bullet(b);
    assert(ids[0] == a && ids[1] == b);
    assert((0int + 1) % 2 == 1);
    assert((1int + 1) % 2 == 0);
    assert(contact_step(f, Seq::empty(), ids, first_repeated, 0, 0, now).1 == h);
    assert(!h.is_bullet(b));
    let e1 = contact_step(f, Seq::empty(), ids, first_repeated, 0, 0, now).2;
    let st1 = contact_step(h, e1, ids, first_repeated, 1, 0, now);
    assert(st1.1 == h && !st1.0);
    assert(scan(h, st1.2, ids, first_repeated, 2, now) == (h, st1.2));
    assert(scan(h, e1, ids, first_repeated, 1, now) == (h, st1.2));
    assert(scan(f, Seq::empty(), ids, first_repeated, 0, now) == (h, st1.2));
    lemma_without_bullet_wf(f, a);
}

} // verus!
