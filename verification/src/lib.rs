//! Verified core of a 3D map tiler: terrain meshes, tile assembly, the
//! pedestrian network and the checks that score a finished archive.
//!
//! Every quantity here is an integer. Plan positions are quantized tile-local
//! coordinates, mesh elevations are millimetres, and every other length or
//! height is a whole number of micrometres.
pub mod arith;
pub mod clip;
pub mod plane;
pub mod project;
pub mod reader;
pub mod synth;
pub mod terrain;
pub mod terrain_cdt;
pub mod text;
pub mod tile_build;
pub mod tileset;
pub mod value;
pub mod verify;
pub mod wire;
