//! Chat with your meetings.
//!
//! Two answer modes: a single meeting, whose transcript and summary are put into the prompt, and
//! all meetings, over which a bounded loop of search, read and final actions runs.

pub mod agent;
pub mod commands;
pub mod retrieval;
pub mod summary;
