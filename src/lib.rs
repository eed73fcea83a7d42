//! A name-indexed reactive property registry.
//!
//! Producers publish named values, consumers declare interest in a name and
//! read a cached copy, and a fixed three-pass cycle keeps both sides
//! consistent: pending stores are materialized, new accesses are seeded, and
//! the cycle's update events are applied to every store and every access.
pub mod value;
pub mod registry;
pub mod world;
pub mod laws;
