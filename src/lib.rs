//! A lossless image codec with a byte-oriented wire format: a fixed header,
//! a stream of one-pixel and run op-codes driven by a 64-slot colour cache,
//! and a fixed footer. Encoder and decoder keep mirrored state, and the
//! round trip between them is proved in `laws`.
pub mod pixel;
pub mod cache;
pub mod model;
pub mod encode;
pub mod decode;
pub mod laws;

pub use pixel::{Channels, ColorSpace, DecodeError, Image, ImageView, Pixel};
