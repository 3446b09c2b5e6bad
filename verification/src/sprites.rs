use vstd::prelude::*;
use crate::player::Point;

verus! {

/// The time that an animated sprite shows each of its frames, in
/// microseconds.
pub const FRAME_DELAY: u64 = 200_000;

/// The height of a sprite frame, in texels.
pub const FRAME_HEIGHT: u32 = 128;

/// The kinds of sprites: each kind has its own sheet of frames and its own
/// sound.
#[allow(non_camel_case_types)]
#[derive(Clone, Copy, Debug, PartialEq, Eq, Hash, Structural)]
pub enum SpriteType {
    creature,
    prize,
}

/// A billboard in the world: where it stands, what it looks like, and how
/// far its animation has run.
pub struct Sprite {
    pub pos: Point,
    pub texture_key: char,
    pub current_frame: usize,
    pub frame_count: usize,
    /// Microseconds for which each frame is shown.
    pub frame_delay: u64,
    /// Microseconds for which the current frame has been shown.
    pub frame_time: u64,
    pub is_alive: bool,
    pub sprite_type: SpriteType,
    pub sound_key: &'static str,
}

/// The key of the sound that sprites of a kind make.
pub open spec fn sound_of(sprite_type: SpriteType) -> Seq<char> {
    match sprite_type {
        SpriteType::creature => "creature_whisper"@,
        SpriteType::prize => "shimmering"@,
    }
}

impl Sprite {
    /// The animation has a frame to show, and shows one of its own.
    pub open spec fn wf(self) -> bool {
        &&& 0 < self.frame_count <= u32::MAX
        &&& self.current_frame < self.frame_count
    }

    /// The frame shown after `delta_time` more microseconds: the next one,
    /// cyclically, once the current one has been shown for longer than
    /// `frame_delay`.
    pub open spec fn frame_after(self, delta_time: u64) -> int {
        if self.is_alive && self.frame_time + delta_time > self.frame_delay {
            (self.current_frame + 1) % (self.frame_count as int)
        } else {
            self.current_frame as int
        }
    }

    /// The time for which the frame shown after `delta_time` more
    /// microseconds has been shown by then.
    pub open spec fn time_after(self, delta_time: u64) -> int {
        if !self.is_alive {
            self.frame_time as int
        } else if self.frame_time + delta_time > self.frame_delay {
            0
        } else {
            self.frame_time + delta_time
        }
    }

    /// A living sprite at `(x, y)` that shows the first of `frame_count`
    /// frames.
    pub fn new(x: u32, y: u32, texture_key: char, frame_count: usize, sprite_type: SpriteType) -> (s:
        Sprite)
        ensures
            s.pos == (Point { x, y }),
            s.texture_key == texture_key,
            s.current_frame == 0,
            s.frame_count == frame_count,
            s.frame_delay == FRAME_DELAY,
            s.frame_time == 0,
            s.is_alive,
            s.sprite_type == sprite_type,
            s.sound_key@ == sound_of(sprite_type),
            s.wf() == (0 < frame_count <= u32::MAX),
    {
        let sound_key = match sprite_type {
            SpriteType::creature => "creature_whisper",
            SpriteType::prize => "shimmering",
        };
        Sprite {
            pos: Point { x, y },
            texture_key,
            current_frame: 0,
            frame_count,
            frame_delay: FRAME_DELAY,
            frame_time: 0,
            is_alive: true,
            sprite_type,
            sound_key,
        }
    }

    /// Whether the animation has a frame to show, and shows one of its
    /// own.
    pub fn is_wf(&self) -> (ok: bool)
        ensures
            ok == self.wf(),
    {
        0 < self.frame_count && self.frame_count <= u32::MAX as usize && self.current_frame
            < self.frame_count
    }

    /// Lets `delta_time` microseconds pass. A dead sprite does not change,
    /// whatever it holds. A living one moves on to its next frame, and
    /// starts timing anew, as soon as the current frame has been shown for
    /// longer than `frame_delay`: a frame that has been shown for exactly
    /// that long stays.
    pub fn update(&mut self, delta_time: u64)
        requires
            old(self).is_alive ==> old(self).frame_count > 0,
        ensures
            final(self).current_frame == old(self).frame_after(delta_time),
            final(self).frame_time == old(self).time_after(delta_time),
            old(self).wf() ==> final(self).wf(),
            final(self).pos == old(self).pos,
            final(self).texture_key == old(self).texture_key,
            final(self).frame_count == old(self).frame_count,
            final(self).frame_delay == old(self).frame_delay,
            final(self).is_alive == old(self).is_alive,
            final(self).sprite_type == old(self).sprite_type,
            final(self).sound_key == old(self).sound_key,
    {
        if !self.is_alive {
            return ;
        }
        let due = match self.frame_time.checked_add(delta_time) {
            Some(t) => t > self.frame_delay,
            None => true,
        };
        if due {
            self.frame_time = 0;
            self.current_frame = ((self.current_frame as u128 + 1) % (self.frame_count as u128))
                as usize;
        } else {
            self.frame_time = self.frame_time + delta_time;
        }
    }

    /// The rectangle of the current frame in a sheet that is
    /// `texture_width` texels wide and holds the frames side by side: left
    /// edge, top edge, width and height.
    pub fn get_frame_coords(&self, texture_width: u32) -> (r: (u32, u32, u32, u32))
        requires
            self.wf(),
        ensures
            r.0 == self.current_frame * (texture_width as int / self.frame_count as int),
            r.1 == 0,
            r.2 == texture_width as int / self.frame_count as int,
            r.3 == FRAME_HEIGHT,
    {
        let frame_width: u32 = texture_width / (self.frame_count as u32);
        let ghost fw = frame_width as int;
        let ghost cf = self.current_frame as int;
        let ghost fc = self.frame_count as int;
        proof {
            vstd::arithmetic::div_mod::lemma_fundamental_div_mod(texture_width as int, fc);
            assert(cf * fw <= fc * fw) by (nonlinear_arith)
                requires
                    cf <= fc,
                    0 <= fw,
            ;
            assert(fc * fw <= texture_width) by (nonlinear_arith)
                requires
                    texture_width == fc * fw + (texture_width as int % fc),
                    0 <= texture_width as int % fc,
            ;
        }
        let src_x: u32 = (self.current_frame as u32) * frame_width;
        (src_x, 0, frame_width, FRAME_HEIGHT)
    }
}

} // verus!
