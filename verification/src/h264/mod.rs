//! H.264 thumbnails: stream conversion, picture selection and JPEG output.

pub mod annex_b;
pub mod config;
pub mod decode;
pub mod gop;
pub mod jpeg;
pub mod scaling;
