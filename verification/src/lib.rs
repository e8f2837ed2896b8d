//! Pipeline-parallel stage planner.
//!
//! Given per-layer execution profiles of a model, the planner searches, for
//! every node count up to a requested maximum, the partition of the layer
//! sequence into contiguous stages that minimises the bottleneck stage cost
//! while every stage's memory footprint stays within a per-node capacity.

pub mod error;
pub mod profile;
pub mod partition;
pub mod search;
pub mod generator;
