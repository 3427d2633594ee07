//! Snapshot-homing navigation: a bee stores a panoramic image of obstacle
//! silhouettes at a home position and, from elsewhere, compares a fresh
//! panoramic image against that snapshot to steer back home.
//!
//! Angles are exact fixed-point values: a full circle is `angle::TURN` units,
//! so the circular partition built by the image builder tiles the circle
//! exactly, with no rounding at segment boundaries.

pub mod angle;
pub mod bee;
pub mod field;
pub mod homing;
pub mod image;
pub mod obstacle;
pub mod segment;
pub mod trig;
pub mod vec2;
pub mod world;
