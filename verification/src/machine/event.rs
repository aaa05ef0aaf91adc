//! What the state machine tells its driver.

use vstd::prelude::*;

use crate::types::{ChunkId, Transcript, TranscriptView, WorkFailure};

verus! {

/// The outcome of a chunk.
#[derive(Debug)]
pub enum Event {
    /// The chunk was transcribed.
    Transcript(Transcript),
    /// The work on the chunk failed.
    Error {
        /// Chunk identity.
        chunk_id: ChunkId,
        /// Why it failed.
        error: WorkFailure,
    },
}

/// What an [`Event`] says.
pub enum EventView {
    /// The chunk was transcribed.
    Transcript(TranscriptView),
    /// The work on the chunk failed.
    Error {
        /// Chunk identity.
        chunk_id: ChunkId,
        /// Why it failed.
        error: WorkFailure,
    },
}

impl View for Event {
    type V = EventView;

    open spec fn view(&self) -> EventView {
        match self {
            Event::Transcript(transcript) => EventView::Transcript(transcript@),
            Event::Error { chunk_id, error } => EventView::Error {
                chunk_id: *chunk_id,
                error: *error,
            },
        }
    }
}

impl EventView {
    /// The chunk that the event is about.
    pub open spec fn chunk(self) -> u64 {
        match self {
            EventView::Transcript(transcript) => transcript.chunk_id.raw,
            EventView::Error { chunk_id, .. } => chunk_id.raw,
        }
    }
}

} // verus!
