//! Per-tick simulation of a two-circle chase scene: a player moved by two
//! keys, a stationary opponent it slides around instead of passing through,
//! and a camera that eases toward a point above the player.
//!
//! Positions are fixed-point integers, 1000 position steps to a world unit,
//! and time is counted in whole milliseconds, so every step is exact.

pub mod geometry;
pub mod input;
pub mod collision;
pub mod motion;
pub mod camera;
pub mod scene;
