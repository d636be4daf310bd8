//! Rank distance between two sets of points that describe the same entities.
//!
//! Row `i` of either set belongs to entity `i`. The rank of an entity is the
//! place that its point of the first set takes when all points of the first
//! set are put in order of their distance from its point of the second set,
//! nearest first; the rank distance is the mean of these ranks. It is zero
//! where every entity's two points are nearest to each other.
//!
//! Coordinates are of any type: the caller hands in the distance, a function
//! of two points that gives an integer, smaller for nearer. Points at the
//! same distance keep the order in which they were inserted.
//!
//! - [`neighbors`]: what the nearest-neighbor order of measured distances is.
//! - [`ranking`]: putting measured distances in that order, and finding ranks.
//! - [`index`]: the spatial index, which measures a query against its points.
//! - [`metrics`]: point sets and the rank distance.
//! - [`error`]: what can go wrong.

pub mod error;
pub mod index;
pub mod metrics;
pub mod neighbors;
pub mod ranking;
