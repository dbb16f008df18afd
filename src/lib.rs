//! Tile-grid rasterization and scanline framing for compressed RGB images,
//! with the content hashing, spawn lookup and source-quality analysis that
//! the map editor around them relies on.
pub mod hash;
pub mod quality;
pub mod raster;
pub mod scanline;
pub mod spawn;
