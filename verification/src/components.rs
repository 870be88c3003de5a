//! The component kinds that can be attached to an entity.
//!
//! Coordinates, velocities and extents are whole numbers of world units:
//! the control protocol only ever steers by whole units, and the
//! rasterizer truncates box bounds to integers before comparing them
//! against pixel coordinates.

use vstd::prelude::*;

verus! {

/// World-space top-left-origin coordinates of an entity.
/// Mutated only by the simulation step.
#[derive(Clone, Copy, Debug, PartialEq, Eq, Structural)]
pub struct Position {
    pub x: i64,
    pub y: i64,
}

/// Axis-aligned bounding-box extent of an entity.
/// Immutable after creation: no system mutates it.
#[derive(Clone, Copy, Debug, PartialEq, Eq, Structural)]
pub struct Size {
    pub width: i64,
    pub height: i64,
}

/// Per-tick displacement of an entity.
/// Mutated only by the control system; the simulation step reads it.
#[derive(Clone, Copy, Debug, PartialEq, Eq, Structural)]
pub struct Velocity {
    pub x: i64,
    pub y: i64,
}

/// Marker component: its presence on an entity, not its value, identifies
/// that entity as the one the control system steers.
#[derive(Clone, Copy, Debug, PartialEq, Eq, Structural)]
pub struct Player {}

} // verus!
