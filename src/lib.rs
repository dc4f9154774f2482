//! Integer core of a fast colour-space converter: the binary32 bit layout
//! work behind its approximate root engine, the nearest-byte quantizer of
//! its batch converter, and the in-place walk over an interleaved pixel
//! buffer. The floating-point pipelines are built on top of these items.

pub mod binary32;
pub mod root_engine;
pub mod quantize;
pub mod pixel_buffer;
