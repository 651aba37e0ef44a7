//! Planning logic for turning folders of lesson videos into one course video:
//! naming and ordering of the lesson files, the text files handed to ffmpeg,
//! the playlist with its timestamps, and the steps of the pairwise merge.

pub mod text;
pub mod timing;
pub mod playlist;
pub mod order;
pub mod numbers;
pub mod naming;
pub mod lists;
pub mod laws;
pub mod ffmpeg;
pub mod merge;
pub mod counter;
pub mod headings;

pub use timing::format_duration;
