//! Broad and narrow phase of a planar collision detector, without the arithmetic.
//!
//! Coordinates, lengths and angles never enter this library. What the
//! algorithms need from a measured quantity is how it orders against others
//! and which sign it has, so every quantity arrives as a *key*: an `i64` that
//! orders as the quantity does and is negative, zero or positive as the
//! quantity is. Shapes are known by their handles, the `usize` under which the
//! caller keeps them. The caller measures; the library selects, decides,
//! places and pairs.

#![allow(non_snake_case)]

pub mod collidable;
pub mod laws;
pub mod quadtree;
pub mod util;
