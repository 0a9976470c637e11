//! Site percolation on a square lattice.
//!
//! The crate generates randomly occupied `L x L` grids, detects spanning
//! paths of occupied sites (burning method), partitions occupied sites into
//! connected clusters (flood-fill labeling), cross-checks the largest
//! component size, and aggregates trial results into percolation statistics.
//! A small sandpile model and its bounded sliding window live beside it.

pub mod analysis;
pub mod conn;
pub mod count;
pub mod lattice;
pub mod oslo;
mod rng;
pub mod stats;
