//! Cut, batch and align speech for Whisper-style recognisers.
//!
//! The crate is the pure part of a transcription pipeline: it takes audio,
//! voice-activity segments and inference results as plain values and hands
//! back commands, events and word timings. Files, threads, models and
//! floating-point arithmetic live outside of it.
//!
//! - [`machine`] is the state machine: a buffer of live audio, the cutter that
//!   merges speech into chunks, and the dispatcher that tracks chunks from the
//!   cut to their event.
//! - [`align`] turns recognised text and an alignment path into timed words.
//! - [`pool`] configures a pool of recognition workers.

pub mod align;
pub mod binary32;
pub mod lang;
pub mod machine;
pub mod pool;
pub mod text;
pub mod time;
pub mod types;

pub use align::aligner::{Aligner, RunnerError};
pub use align::job::{AlignResultMsg, AlignmentFallback, AlignmentLookup};
pub use align::script_dispatch::{dispatch_segments, BoundsSource, PlainSegment, Run, SegmentLike};
pub use binary32::Binary32;
pub use lang::Lang;
pub use machine::command::{
    AlignmentResult, AsrParams, AsrParamsOverride, AsrResult, Command, SamplingStrategy,
};
pub use machine::event::Event;
pub use machine::transcriber::{LanguagePolicy, Transcriber, TranscriberConfig};
pub use pool::WhisperPoolConfig;
pub use time::{TimeRange, Timebase, Timestamp};
pub use types::{
    AlignmentFailureKind, AsrFailureKind, ChunkId, PushKind, TranscriberError, Transcript,
    VadSegment, Word, WorkFailure, WorkerKind,
};
