//! The integer side of an interactive ray tracer, with its contracts proved:
//! the shape of the bounding-volume hierarchy and its nearest-hit and any-hit
//! queries (over ordered distance keys), the shadow and recursion
//! policies of shading, the adaptive frame scheduler (resolution scaling and
//! checkerboard reuse), the render settings a user steers, and the block
//! layout of the demo scene. Colour, distance and intersection arithmetic is
//! floating point and lives with the program that drives the library.

/// Hierarchy construction over fixed-point centroids.
pub mod bvh;
/// The demo scene's blocks on an integer grid.
pub mod layout;
/// Frame scheduling: downscaled tracing, upsampling, checkerboard reuse.
pub mod scheduler;
/// Shadow and recursion policies, and the user-steered render state.
pub mod settings;
/// Texture kinds and sampling tiers.
pub mod texture;
/// Nearest-hit and any-hit queries, through the hierarchy or shape by shape.
pub mod traversal;
