//! Verified pieces of a PNG encoder's parallel DEFLATE path and its stage
//! profiler.
//!
//! - [`pardeflate`]: how a filtered scanline stream is split into row-aligned
//!   blocks, and how the raw DEFLATE blocks are framed into one zlib stream
//!   (header, blocks in order, Adler-32 trailer).
//! - [`checksum`]: the Adler-32 checksum that closes a zlib stream.
//! - [`prof`]: the per-stage accumulators of the stage profiler.
//! - `deflate`: the calls into `flate2`.

pub mod checksum;
mod deflate;
pub mod pardeflate;
pub mod prof;
pub mod split;
