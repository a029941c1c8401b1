//! A fixed-timestep simulation of circular bodies that fall under gravity,
//! push each other apart and stay inside a circular arena.
//!
//! Lengths are fixed-point integers: one unit of the arena is `SCALE` steps.
//! Time is counted in nanoseconds.
pub mod clock;
pub mod geometry;
pub mod input;
pub mod state;
pub mod world;
