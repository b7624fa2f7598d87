//! A reader for Disney's Ptex per-face texture file format.
//!
//! It reads:
//!
//! - header information (mesh type, data type, channels, alpha channel, ...)
//! - per-face resolution and adjacency information ([`FaceInfo`])
//! - full-resolution pixel data for each face, including constant,
//!   zip-compressed, difference-encoded, and tiled faces
//! - stored mipmap (reduction) levels, and dynamically computed
//!   reductions for resolutions not stored in the file
//! - meta data (including large meta data blocks)
//!
//! Faces larger than 64 KB are stored as independently compressed tiles,
//! and [`PtexReader`] exposes them: [`PtexReader::tile_layout`] describes
//! how a face is laid out at a chosen resolution and
//! [`PtexReader::get_tile`] reads one tile, so a render engine can stream
//! exactly what it needs instead of materializing whole faces.  For reading
//! from several threads against one open file, with a bounded cache of
//! decoded pixels, see [`SharedReader`].
//!
//! The library itself does no I/O: a reader is made from a function that
//! returns the bytes at a position of a stream, and from one that does the
//! floating-point arithmetic on texels ([`PixelOp`]).

pub mod block_laws;
pub mod cache;
pub mod cache_laws;
pub mod decode;
pub mod element_laws;
pub mod error;
pub mod face_flags;
pub mod file_info;
pub mod format;
pub mod grid_laws;
pub mod half;
pub mod image;
pub mod index_laws;
pub mod laws;
pub mod metadata;
pub mod metadata_laws;
pub mod open;
pub mod opening_laws;
pub mod paint;
pub mod pixel_laws;
pub mod place;
pub mod ranking;
pub mod reader;
pub mod recency;
pub mod reduce;
pub mod reduction_laws;
pub mod shared;
pub mod source;
pub mod source_laws;
pub mod stream;
pub mod texel;
pub mod texel_laws;
pub mod tile;
pub mod types;
pub mod utils;
pub mod zlib;

pub use cache::{CacheOptions, CacheStats, PixelData, DEFAULT_CACHE_BUDGET};
pub use error::{Error, ErrorView};
pub use half::{float_to_half_bits, half_to_float_bits};
pub use metadata::{MetaData, MetaDataEntry};
pub use reader::PtexReader;
pub use shared::SharedReader;
pub use source::Source;
pub use texel::PixelOp;
pub use tile::{TileInfo, TileLayout};
pub use types::{
    BorderMode, DataType, EdgeFilterMode, EdgeId, FaceInfo, MeshType, MetaDataType, Res,
};
