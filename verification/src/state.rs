use vstd::prelude::*;
use crate::player::Point;

verus! {

/// What the game remembers from frame to frame: the corner of the zone in
/// which the flashlight is on, and whether the player is in it.
#[derive(Clone, Copy, Debug)]
pub struct GameState {
    pub flashlight_active: bool,
    pub activation_min_x: u32,
    pub activation_min_y: u32,
    pub in_special_zone: bool,
}

impl GameState {
    /// `pos` lies in the zone: at or beyond its corner on both axes.
    pub open spec fn zone_holds(self, pos: Point) -> bool {
        pos.x >= self.activation_min_x && pos.y >= self.activation_min_y
    }

    /// Notes whether the player, now at `pos`, is in the zone. The
    /// flashlight is on exactly there.
    pub fn update(&mut self, pos: Point)
        ensures
            final(self).in_special_zone == old(self).zone_holds(pos),
            final(self).flashlight_active == old(self).zone_holds(pos),
            final(self).activation_min_x == old(self).activation_min_x,
            final(self).activation_min_y == old(self).activation_min_y,
    {
        self.in_special_zone = pos.x >= self.activation_min_x && pos.y >= self.activation_min_y;
        self.flashlight_active = self.in_special_zone;
    }
}

} // verus!
