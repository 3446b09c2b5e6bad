//! A ray caster for tile mazes, in whole numbers throughout.
//!
//! For every column of the screen a ray is followed from cell to cell
//! until a wall stops it; the wall is drawn as a textured strip whose
//! height falls with its depth, and the depth is kept for the column.
//! Sprites are then drawn from the furthest to the nearest, each column of
//! them only where the sprite is nearer than the wall.
//!
//! Positions are whole world units. Distances and depths are in fixed point
//! with sixteen fractional bits, and so are cosines and sines, which come
//! from a table that the caller fills. Angles are counted in steps of that
//! table. Every result is stated exactly, rounding included.

pub mod arith;
pub mod color;
pub mod maze;
pub mod trig;
pub mod player;
pub mod caster;
pub mod framebuffer;
pub mod sprites;
pub mod textures;
pub mod state;
pub mod walls;
pub mod billboards;
pub mod minimap;
pub mod audio;
