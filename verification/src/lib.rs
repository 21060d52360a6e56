//! The verified core of a local meeting assistant.
//!
//! * [`audio::meeting_detector`] notices when a call starts and ends, by the app that holds the microphone.
//! * [`meeting_nudge`] decides when to offer to record it.
//! * [`audio::diarize`] tells the voices of a recording apart and refines the labels of its transcript.
//! * [`chat`] answers questions about one meeting or all of them.
//!
//! What the core cannot do itself (measure sound, talk to a model, read a database, show a window) comes in as
//! plain values, and what it wants done goes out as plain values.

pub mod audio;
pub mod chat;
pub mod clock;
pub mod ident;
pub mod ieee;
pub mod json;
pub mod meeting_nudge;
pub mod order;
pub mod text;
