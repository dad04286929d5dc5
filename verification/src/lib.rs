//! A verified Euclidean distance transform for 2D grids.
//!
//! For every cell of a grid, the transform computes the straight-line
//! distance to the nearest target cell, where a target is any valid,
//! non-zero cell of the input. The algorithm is the two-scan distance
//! transform of Shih and Wu: an initial pass seeds squared distances,
//! a forward and a backward raster scan propagate minimal squared
//! distances together with per-cell offset vectors, and a final pass
//! re-imposes the missing-data mask.
//!
//! Squared distances and offsets are exact integers, so the whole
//! computation is carried out and verified over integer grids. The
//! conversion of a squared distance to a ground-unit distance
//! (`sqrt(d) * cell_size`) is floating-point arithmetic and is left to
//! the caller.
//!
//! The executable passes live in [`scan`] over the containers of
//! [`grid`]; each is proved to compute exactly what the mathematical
//! model in [`model`] states. On top of that model, [`bounds`] keeps
//! every intermediate inside `u64`, [`laws`] proves the masking,
//! all-target, all-background and monotonic-correction properties,
//! [`symmetry`] proves that the two scans are images of one another
//! under 180-degree rotation, and [`witness`] and [`complete`] prove
//! that every finite result is backed by a real target within that
//! distance and that one target anywhere suffices to make every
//! result finite.

pub mod bounds;
pub mod complete;
pub mod grid;
pub mod laws;
pub mod model;
pub mod scan;
pub mod symmetry;
pub mod witness;
