//! A fixed-capacity memory arena with a monotonic bump allocator, and a
//! frame packer that binarizes an interleaved color pixel buffer into a
//! 1-bit-per-pixel, MSB-first, row-major bitmap written into arena memory.
//!
//! The arena hands out non-overlapping byte ranges as bounded spans and
//! reclaims everything at once; the packer thresholds each pixel's integer
//! BT.601 luminance, optionally inverted, and degrades gracefully on short
//! input by leaving the remaining bits at zero.

pub mod arena;
pub mod bits;
pub mod frame;
