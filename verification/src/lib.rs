//! A verified per-tick frame scheduler for an entity-component game loop.
//!
//! The scheduler owns a set of named phases in a fixed total order, runs the
//! systems registered in each phase strictly in that order, gates the whole
//! pipeline on a per-tick boolean, and drains the deferred mutation queue at
//! declared barrier points between adjacent phases.

pub mod laws;
pub mod schedule;
pub mod tick;
pub mod world;
