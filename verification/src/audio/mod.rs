//! Listening to meetings: who is in a call, and who said what.

pub mod diarize;
pub mod meeting_detector;
