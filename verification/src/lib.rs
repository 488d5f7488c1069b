//! Codec and grid engine for the tilemap file format of a 2D tile-based
//! game engine's plugins.

pub mod bytes;
pub mod compress;
pub mod decode;
pub mod encode;
pub mod error;
pub mod format;
pub mod grid;
pub mod layer;
pub mod roundtrip;
pub mod sublayer;
pub mod text;
pub mod tile;
pub mod tilemap;

pub use error::ReadError;
pub use layer::{FloatBits, Layer, SubLayerLink};
pub use sublayer::SubLayer;
pub use tile::Tile;
pub use tilemap::{Properties, Property, TileMap, TileSet};
