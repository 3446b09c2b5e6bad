use vstd::prelude::*;
use crate::billboards::{distance_squared, squared_distance};
use crate::player::Point;
use crate::sprites::Sprite;
use crate::trig::ONE;

verus! {

/// Sprites are heard within this distance of the player, in world units.
pub const PROXIMITY_RADIUS: u64 = 200;

/// The volume at which both pieces of music are played, in fixed point:
/// one half.
pub const MUSIC_VOLUME: u32 = 0x8000;

/// What is to be done with the sound of a sprite.
#[derive(Clone, Copy, Debug, PartialEq, Eq, Structural)]
pub enum SoundCommand {
    /// Set the volume, in fixed point, and start the sound unless it is
    /// playing.
    Play { volume: u32 },
    /// Stop the sound.
    Stop,
}

/// What is to be done with the music.
#[derive(Clone, Copy, Debug, PartialEq, Eq, Structural)]
pub enum MusicSwitch {
    /// Stop the background music and start the music of the zone.
    ToZone,
    /// Stop the music of the zone and start the background music.
    ToBackground,
    /// Leave the music as it is.
    Keep,
}

/// The volume of a sound whose source is the square root of `d2` away:
/// twice the full volume at the source, falling off with the square of
/// the distance to the full volume at the radius.
pub open spec fn proximity_volume(d2: int) -> int {
    2 * ONE as int - d2 * ONE as int / (PROXIMITY_RADIUS as int * PROXIMITY_RADIUS as int)
}

/// What is to be done with the sound of a sprite at `source` when the
/// player stands at `listener`.
pub open spec fn command_for(listener: Point, source: Point) -> SoundCommand {
    let d2 = squared_distance(listener, source);
    if d2 < PROXIMITY_RADIUS as int * PROXIMITY_RADIUS as int {
        SoundCommand::Play { volume: proximity_volume(d2) as u32 }
    } else {
        SoundCommand::Stop
    }
}

/// Which music is playing.
pub struct AudioSystem {
    pub background_playing: bool,
}

impl AudioSystem {
    /// The music to switch to when the player is, or is not, in the zone.
    pub open spec fn switch_for(self, in_special_zone: bool) -> MusicSwitch {
        if self.background_playing && in_special_zone {
            MusicSwitch::ToZone
        } else if !self.background_playing && !in_special_zone {
            MusicSwitch::ToBackground
        } else {
            MusicSwitch::Keep
        }
    }

    /// A system in which the background music is playing.
    pub fn new() -> (system: AudioSystem)
        ensures
            system.background_playing,
    {
        AudioSystem { background_playing: true }
    }

    /// What is to be done with the sound of each sprite, in the order of
    /// the list: sprites within [`PROXIMITY_RADIUS`] of the player are
    /// heard, the louder the nearer they are, and the others are silent.
    pub fn play_proximity_sounds(&self, player_pos: Point, sprites: &Vec<Sprite>) -> (commands: Vec<
        SoundCommand,
    >)
        ensures
            commands@.len() == sprites@.len(),
            forall|i: int|
                0 <= i < sprites@.len() ==> #[trigger] commands@[i] == command_for(
                    player_pos,
                    sprites@[i].pos,
                ),
    {
        let mut commands: Vec<SoundCommand> = Vec::new();
        let mut i: usize = 0;
        while i < sprites.len()
            invariant
                i <= sprites@.len(),
                commands@.len() == i,
                forall|k: int|
                    0 <= k < i ==> #[trigger] commands@[k] == command_for(
                        player_pos,
                        sprites@[k].pos,
                    ),
            decreases sprites@.len() - i,
        {
            commands.push(proximity_command(player_pos, sprites[i].pos));
            i = i + 1;
        }
        commands
    }

    /// Notes where the player is and answers which music to switch to: the
    /// music of the zone on entering it, the background music on leaving.
    pub fn update_zone_music(&mut self, in_special_zone: bool) -> (switch: MusicSwitch)
        ensures
            switch == old(self).switch_for(in_special_zone),
            final(self).background_playing == !in_special_zone,
    {
        if self.background_playing && in_special_zone {
            self.background_playing = false;
            MusicSwitch::ToZone
        } else if !self.background_playing && !in_special_zone {
            self.background_playing = true;
            MusicSwitch::ToBackground
        } else {
            MusicSwitch::Keep
        }
    }
}

/// What is to be done with the sound of a sprite at `source` when the
/// player stands at `listener`.
pub fn proximity_command(listener: Point, source: Point) -> (command: SoundCommand)
    ensures
        command == command_for(listener, source),
{
    let d2 = distance_squared(listener, source);
    let r2: u128 = (PROXIMITY_RADIUS as u128) * (PROXIMITY_RADIUS as u128);
    assert(r2 == 40_000) by (nonlinear_arith)
        requires
            r2 == 200 * 200,
    ;
    if d2 < r2 {
        assert(d2 * ONE as int <= 40_000 * 0x1_0000 && d2 * ONE as int / 40_000 <= 0x1_0000)
            by (nonlinear_arith)
            requires
                0 <= d2 < 40_000,
                ONE == 0x1_0000,
        ;
        let fall: u128 = d2 * (ONE as u128) / r2;
        SoundCommand::Play { volume: (2 * (ONE as u128) - fall) as u32 }
    } else {
        SoundCommand::Stop
    }
}

} // verus!
