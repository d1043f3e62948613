//! Palette-indexed, run-length-compacted image encoding for firmware.
//!
//! An image is encoded in five steps, each in a module of its own:
//!
//! 1. [`color`]: every 8-bit RGB pixel is quantised to a 16-bit 5-6-5 colour.
//! 2. [`palette`] and [`indexing`]: each distinct colour gets one of eight
//!    palette slots, in the order of first occurrence, and every pixel
//!    becomes the index of its colour's slot.
//! 3. [`segment`]: the index stream is cut into runs of at most fifteen
//!    equal indices.
//! 4. [`compact`]: the runs become bytes, in the layouts of [`layout`]; lone
//!    pixels and alternating patterns are folded into single bytes.
//! 5. [`encode`]: the sixteen palette bytes and the byte stream are laid out
//!    as one buffer.
//!
//! [`codec`] holds the encoder and decoder for index streams and the proof
//! that the two are inverse; [`raster`] holds the image type that the
//! encoder reads; [`range`] holds the run type that segmenter and compactor
//! share.

pub mod codec;
pub mod color;
pub mod compact;
pub mod encode;
pub mod indexing;
pub mod layout;
pub mod palette;
pub mod range;
pub mod raster;
pub mod segment;
