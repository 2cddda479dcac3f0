//! Verified core of a media metadata, thumbnail and subtitle parser.

pub mod builder;
pub mod bytes;
pub mod commands;
pub mod envelope;
pub mod error;
pub mod errors;
pub mod h264;
pub mod http_headers;
pub mod image;
pub mod memory;
pub mod mp3;
pub mod mp4;
pub mod registry;
pub mod session_cache;
pub mod source;
pub mod strings;
pub mod time;
pub mod types;
pub mod unicode;
