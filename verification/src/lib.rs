//! A small computational-geometry library: convex hulls of finite point
//! sets in the 2D plane.
//!
//! Two independent algorithms are offered, an angular sweep (Graham-scan
//! style) and a gift wrap (Jarvis-march style), built on shared point and
//! orientation primitives. Coordinates are exact integers, so every
//! geometric predicate (orientation of a triple, squared distance, polar
//! angle order around a pivot) is computed exactly, with no rounding and
//! no tolerance policy to document.

pub mod convexhull;
mod geometry;
pub mod points;
pub mod types;
