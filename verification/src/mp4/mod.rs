//! MP4 container parsing.

pub mod avc;
pub mod bounded_tables;
pub mod boxes;
pub mod chunks;
pub mod cover;
pub mod headers;
pub mod retained;
pub mod sample_io;
pub mod sample_reads;
pub mod samples;
pub mod subtitles;
pub mod thumbnail_groups;
pub mod thumbnail_io;
pub mod thumbnails;
pub mod timing;
