//! Bounding volumes, overlap tests and spatial partitioning.

pub mod ancestry;
pub mod laws;
pub mod layout;
pub mod pairing;
pub mod partitioning;
pub mod primitives;
