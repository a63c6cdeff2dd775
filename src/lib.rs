//! Diffusion-limited aggregation: a cluster grows one particle at a time,
//! each particle released on the cluster's bounding sphere and walking at
//! random until it sticks to the point nearest to it.
//!
//! Positions are fixed-point: every coordinate is a whole number of ticks,
//! with [`geometry::UNIT`] ticks to one unit of length.

pub mod aggregation;
pub mod geometry;
pub mod index;
pub mod models;
pub mod plane;
pub mod random;
pub mod table;

pub use geometry::{lerp, Vec3d};
pub use plane::Plane;
pub use aggregation::{direction_of, Aggregation, GrowthError, Next, Record, Step};
pub use models::{Builder, ConvexAggregation, FlatAggregation, Vec2d};
pub use random::{RandomSource, ReplaySource, StdSource};
pub use table::{encode_table, parse_table};
