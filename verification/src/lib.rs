//! A quadtree of movable, circle-bounded objects on an integer grid, with a
//! pruned pairwise collision sweep.
//!
//! The objects live in an `ObjectPool` and are known to the tree by their
//! handles. The tree places each object by its bounding circle, relocates
//! it when it has moved, walks over the objects of the whole space or of the
//! part round a query circle, and finds the objects that collide.
//!
//! Everything here is verified against the model in `collision::layout`.
//! The one thing taken on trust is what `ref_eq::ref_eq` answers for two
//! places of the tree's lists; see `Quadtree::colliding_pairs`.

pub mod collision;
pub mod common;
pub mod types;
