//! A lossless image codec: raw RGB or RGBA pixels to a compact opcode stream
//! and back, with every step of both directions proved against a model.
pub mod decoder;
pub mod encoder;
pub mod header;
pub mod laws;
pub mod pixel;
pub mod runner;

pub use decoder::decode;
pub use encoder::encode;
pub use header::DecodeError;
