//! A verified lossless image codec for the QOI byte format.
//!
//! The format is a linear sequence of self-describing chunks between a
//! fixed 14-byte header and an 8-byte footer.  Encoding and decoding are
//! specified against a common mathematical model, and decoding an encoded
//! stream is proved to reproduce the original pixel buffer exactly.

pub mod decode;
pub mod encode;
pub mod format;
pub mod laws;

pub use format::Channels;
pub use format::Colorspace;
pub use format::QoiError;
pub use format::QoiHeader;
pub use format::QoiPixel;
pub use format::qoi_color_hash;
pub use encode::qoi_encode;
pub use decode::qoi_decode;
