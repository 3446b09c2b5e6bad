use vstd::prelude::*;

verus! {

/// A point of the world, in whole world units.
#[derive(Clone, Copy, Debug, PartialEq, Eq, Structural)]
pub struct Point {
    pub x: u32,
    pub y: u32,
}

/// The viewer: where it stands, the angle it faces and the angle it
/// overlooks, both in steps of the trigonometric table.
#[derive(Clone, Copy, Debug)]
pub struct Player {
    pub pos: Point,
    pub a: u32,
    pub fov: u32,
}

} // verus!
