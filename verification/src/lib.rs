//! A spatial index over axis-aligned bounding boxes in the 2D integer plane.
//!
//! The index is a quadtree: a recursive node that owns a rectangular
//! boundary, an optional set of four child quadrants, and the items whose
//! boxes do not fit inside any single quadrant.  It supports insertion,
//! identity-based removal, and region-overlap queries.

pub mod geometry;
pub mod platform;
pub mod quadtree;
