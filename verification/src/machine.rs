//! The transcription state machine: audio and speech segments in, commands
//! and events out, no I/O.

pub mod buffer;
pub mod command;
pub mod cut;
pub mod dispatch;
pub mod event;
pub mod language;
pub mod transcriber;
