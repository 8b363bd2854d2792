//! A lossless codec for small sprites of at most four colours: bit-level I/O,
//! reversible bit transforms, the PnTree entropy coder with its parameter
//! search, and an in-place decompressor.
pub mod bitfiddle;
pub mod common;
pub mod decomp;
pub mod laws;
pub mod pkcomp;
pub mod transforms;

pub mod pkdecomp;
pub mod wasm4png;
pub mod convert;
