//! Objects, the handles that stand for them, and the pool that owns them.

pub mod objects;
