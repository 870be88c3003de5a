//! A minimal real-time simulation core for a 2D box-moving demo:
//! an entity/component store, a per-tick integration step, a discrete
//! directional-control protocol, and a frame rasterizer that turns the
//! simulation state into an RGBA pixel buffer.
//!
//! The windowing, input-polling and presentation layers are external
//! consumers of this crate: they drive the control system, the simulation
//! step and the rasterizer once per tick, in that order.

pub mod components;
pub mod ecs;
pub mod engine;

pub use components::{Player, Position, Size, Velocity};
pub use ecs::{ComponentStorage, Entity, World};
pub use engine::{Direction, GameState};
