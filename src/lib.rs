//! A PNG / APNG encoder that stores image data in uncompressed DEFLATE blocks,
//! and a canvas to draw the pictures it encodes.
//!
//! Every byte the encoder emits is specified: the checksums, the zlib container,
//! the chunk framing, the scanline layout and the order of chunks in a file.
//! The canvas's shapes are specified pixel by pixel.

pub mod adler32;
pub mod bytes;
pub mod canvas;
pub mod chunk;
pub mod crc32;
pub mod deflate;
pub mod png;
pub mod raster;
pub mod scenes;
pub mod sizes;
