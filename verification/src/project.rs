//! The quantized frame every tile-local coordinate lives in.
use vstd::prelude::*;

verus! {

/// Quantized units across the tile proper.
pub const EXTENT: u32 = 32768;

/// Quantized units of margin on each side of the tile proper, so the west and
/// south edges sit at `BUFFER` and the east and north edges at
/// `BUFFER + EXTENT`.
pub const BUFFER: u32 = 16384;

/// A geodetic position in billionths of a degree.
#[derive(Clone, Copy, Debug, PartialEq, Eq, Structural)]
pub struct Place {
    pub lon: i64,
    pub lat: i64,
}

/// The edges of a tile, in billionths of a degree.
#[derive(Clone, Copy, Debug, PartialEq, Eq, Structural)]
pub struct TileEdges {
    pub west: i64,
    pub south: i64,
    pub east: i64,
    pub north: i64,
}

} // verus!
