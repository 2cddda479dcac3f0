//! Subtitle tracks of MP4 files.

pub mod budget;
pub mod chapters;
pub mod cues;
pub mod extract;
pub mod index;
pub mod output;
pub mod requests;
pub mod selections;
pub mod text;
