//! Surfaces synthesised from the scene.
pub mod disks;
pub mod structure;
pub mod surface;
pub mod walkgraph;
pub mod walkway;
