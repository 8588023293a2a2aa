//! Verified core of a LiDAR scan pipeline: a 2D point model in fixed-point
//! coordinates, density-based clustering (DBSCAN), axis-aligned bounding-box
//! extraction per cluster, and the per-cycle orchestration state machine.
//!
//! Sensor acquisition and network dispatch are external collaborators: they
//! hand the library plain values and take plain values back.

pub mod geometry;
pub mod cluster;
pub mod bbox;
pub mod pipeline;
