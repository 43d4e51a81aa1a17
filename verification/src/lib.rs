//! Viewing progress across a directory of video files: one mapping from file
//! path to seconds watched, kept in step with the files on disk and with a
//! player's playback history, and the rule that picks the file to resume.

pub mod args;
pub mod history;
pub mod reconcile;
pub mod select;
pub mod state;
pub mod text;
pub mod time;
pub mod video_times;
