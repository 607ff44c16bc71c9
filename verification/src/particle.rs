//! The particle data model: a two-dimensional fixed-point vector, an opaque
//! display color, and the particle record with its validity predicate.

use vstd::prelude::*;
use crate::nums::{coord_ok, radius_ok, accel_ok};

verus! {

/// A two-dimensional vector of fixed-point coordinates.
#[derive(Clone, Copy, Debug, PartialEq, Eq, Structural)]
pub struct Vec2 {
    pub x: i64,
    pub y: i64,
}

impl Vec2 {
    pub fn new(x: i64, y: i64) -> (r: Vec2)
        ensures
            r == (Vec2 { x, y }),
    {
        Vec2 { x, y }
    }

    pub fn zero() -> (r: Vec2)
        ensures
            r == (Vec2 { x: 0i64, y: 0i64 }),
    {
        Vec2 { x: 0, y: 0 }
    }
}

/// A display color. It is carried through the simulation and has no effect on
/// any of its logic.
#[derive(Clone, Copy, Debug, PartialEq, Eq, Structural)]
pub struct Color {
    pub red: u8,
    pub green: u8,
    pub blue: u8,
}

/// One circular particle. `position` and `prev_position` drive Verlet
/// integration: the implicit velocity is their difference.
#[derive(Clone, Copy, Debug, PartialEq, Eq, Structural)]
pub struct Point {
    pub id: usize,
    pub position: Vec2,
    pub prev_position: Vec2,
    pub acceleration: Vec2,
    pub radius: i64,
    pub color: Color,
}

impl Point {
    pub fn new(
        id: usize,
        position: Vec2,
        prev_position: Vec2,
        acceleration: Vec2,
        radius: i64,
        color: Color,
    ) -> (r: Point)
        ensures
            r == (Point { id, position, prev_position, acceleration, radius, color }),
    {
        Point { id, position, prev_position, acceleration, radius, color }
    }
}

/// Validity of a particle: its positions lie in the coordinate range, its
/// radius is positive and bounded, and its acceleration is bounded.
pub open spec fn particle_ok(p: Point) -> bool {
    &&& coord_ok(p.position.x as int)
    &&& coord_ok(p.position.y as int)
    &&& coord_ok(p.prev_position.x as int)
    &&& coord_ok(p.prev_position.y as int)
    &&& accel_ok(p.acceleration.x as int)
    &&& accel_ok(p.acceleration.y as int)
    &&& radius_ok(p.radius as int)
}

} // verus!
