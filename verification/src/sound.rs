//! Sound cues that the server broadcasts and the client plays.

use vstd::prelude::*;

verus! {

/// A sound cue, sent over the wire as a small number.
#[derive(Clone, Copy, Debug, PartialEq, Eq, Structural)]
pub enum Sound {
    /// A bullet knocked a tank out.
    TankHit,
    /// A tank fired.
    Fire,
    /// A tank left a tread mark.
    Tread,
    /// A bullet bounced off something that is not a live tank.
    WallHit,
}

/// The number that stands for a cue on the wire.
pub open spec fn spec_code(s: Sound) -> u32 {
    match s {
        Sound::TankHit => 0,
        Sound::Fire => 1,
        Sound::Tread => 2,
        Sound::WallHit => 3,
    }
}

impl Sound {
    /// The number that stands for this cue on the wire.
    pub fn code(self) -> (c: u32)
        ensures
            c == spec_code(self),
    {
        match self {
            Sound::TankHit => 0,
            Sound::Fire => 1,
            Sound::Tread => 2,
            Sound::WallHit => 3,
        }
    }

    /// The cue that a wire number stands for; `None` for a number that stands for none.
    pub fn from_code(code: u32) -> (s: Option<Sound>)
        ensures
            s matches Some(c) ==> spec_code(c) == code,
            s is None <==> code > 3,
    {
        if code == 0 {
            Some(Sound::TankHit)
        } else if code == 1 {
            Some(Sound::Fire)
        } else if code == 2 {
            Some(Sound::Tread)
        } else if code == 3 {
            Some(Sound::WallHit)
        } else {
            None
        }
    }
}

/// Name of the audio asset played for a wire number that has one.
pub open spec fn spec_asset(code: u32) -> Seq<char> {
    if code == 0 {
        "bonk.ogg"@
    } else if code == 1 {
        "tankfire.ogg"@
    } else {
        "wall_bonk.ogg"@
    }
}

/// Name of the audio asset that a wire number plays on its emitter, or `None`
/// where the client plays nothing (the tread cue is silent, unknown numbers too).
pub fn sound_asset(code: u32) -> (r: Option<&'static str>)
    ensures
        r is Some <==> (code == 0 || code == 1 || code == 3),
        r matches Some(a) ==> a@ == spec_asset(code),
{
    if code == 0 {
        Some("bonk.ogg")
    } else if code == 1 {
        Some("tankfire.ogg")
    } else if code == 2 {
        None
    } else if code == 3 {
        Some("wall_bonk.ogg")
    } else {
        None
    }
}

/// Reading a cue back from its wire number gives the same cue.
pub proof fn code_round_trip(s: Sound)
    ensures
        spec_code(s) <= 3,
        forall|t: Sound| spec_code(t) == spec_code(s) ==> t == s,
{
}

/// Which asset each cue plays: a knock-out bonks, a shot plays the tank gun,
/// a bounce plays the wall bonk, and tread marks are silent.
pub proof fn cue_assets()
    ensures
        spec_asset(spec_code(Sound::TankHit)) == "bonk.ogg"@,
        spec_asset(spec_code(Sound::Fire)) == "tankfire.ogg"@,
        spec_asset(spec_code(Sound::WallHit)) == "wall_bonk.ogg"@,
        spec_code(Sound::Tread) != 0 && spec_code(Sound::Tread) != 1 && spec_code(Sound::Tread)
            != 3,
{
}

} // verus!
