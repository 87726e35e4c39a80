//! Game rules of a small top-down tank battle: who may fire and when, what a
//! bullet does when it touches something, how kills and deaths are counted,
//! when a knocked-out player may ask to come back, and which sound a cue plays.
//!
//! The engine (entities, physics, rendering, audio) lives outside this crate;
//! the functions here take plain values read from it and say what to do.

pub mod timing;
pub mod sound;
pub mod scoring;
pub mod controls;
pub mod arena;
