//! The life of a chunk, from the cut to its event.
//!
//! A chunk is in flight from the moment its audio is extracted until its event
//! is queued. At most `max_in_flight` chunks are in flight; those cut
//! meanwhile wait as mere descriptors, their audio staying in the live buffer.
//! Chunks may finish in any order, but their events are queued in the order in
//! which the chunks were cut.

use std::collections::{BTreeMap, VecDeque};
use std::sync::Arc;

use vstd::prelude::*;

use crate::binary32::Binary32;
use crate::lang::Lang;
use crate::machine::buffer::{SampleBuffer, SampleBufferView};
use crate::machine::command;
use crate::machine::command::{AlignmentResult, AsrParams, AsrResult, ChunkAudio, Command, CommandView};
use crate::machine::cut::{ChunkView, MergedChunk, SampleRange, SubOrigin, SubRange};
use crate::machine::event::{Event, EventView};
use crate::text;
use crate::time;
use crate::time::TimeRange;
use crate::types;
use crate::types::{ChunkId, TranscriberError, Transcript, TranscriptView, Word, WordView, WorkFailure};

verus! {

/// How far the work on a chunk has come.
#[derive(Debug)]
pub enum ChunkPhase {
    /// Waiting for recognition.
    AwaitingAsr,
    /// Waiting for alignment.
    AwaitingAlignment,
    /// Transcribed; the event is not queued yet.
    Ready {
        /// The transcript.
        transcript: Transcript,
    },
    /// Failed; the event is not queued yet.
    FailedReady {
        /// Why it failed.
        failure: WorkFailure,
    },
}

/// What a [`ChunkPhase`] says.
pub enum PhaseView {
    /// Waiting for recognition.
    AwaitingAsr,
    /// Waiting for alignment.
    AwaitingAlignment,
    /// Transcribed; the event is not queued yet.
    Ready(TranscriptView),
    /// Failed; the event is not queued yet.
    Failed(WorkFailure),
}

impl View for ChunkPhase {
    type V = PhaseView;

    open spec fn view(&self) -> PhaseView {
        match self {
            ChunkPhase::AwaitingAsr => PhaseView::AwaitingAsr,
            ChunkPhase::AwaitingAlignment => PhaseView::AwaitingAlignment,
            ChunkPhase::Ready { transcript } => PhaseView::Ready(transcript@),
            ChunkPhase::FailedReady { failure } => PhaseView::Failed(*failure),
        }
    }
}

impl PhaseView {
    /// The outcome is known.
    pub open spec fn done(self) -> bool {
        self is Ready || self is Failed
    }
}

/// A chunk in flight.
#[derive(Debug)]
pub struct ChunkRecord {
    /// Chunk identity.
    pub chunk_id: ChunkId,
    /// Bounds in the output timebase.
    pub range: TimeRange,
    /// Its audio.
    pub samples: ChunkAudio,
    /// Bounds in analysis samples.
    pub sample_range: SampleRange,
    /// The speech in it, in the output timebase.
    pub sub_segments: Vec<TimeRange>,
    /// Where each piece of speech came from.
    pub sub_origins: Vec<SubOrigin>,
    /// How far the work on it has come.
    pub phase: ChunkPhase,
    /// What recognition gave, once it is done.
    pub asr_result: Option<AsrResult>,
}

/// What a [`ChunkRecord`] says.
pub struct RecordView {
    /// Chunk identity.
    pub chunk_id: ChunkId,
    /// Bounds in the output timebase.
    pub range: TimeRange,
    /// Its audio.
    pub samples: Seq<Binary32>,
    /// Bounds in analysis samples.
    pub sample_range: SampleRange,
    /// The speech in it, in the output timebase.
    pub sub_segments: Seq<TimeRange>,
    /// Where each piece of speech came from.
    pub sub_origins: Seq<SubOrigin>,
    /// How far the work on it has come.
    pub phase: PhaseView,
    /// What recognition gave, once it is done.
    pub asr_result: Option<AsrResult>,
}

impl View for ChunkRecord {
    type V = RecordView;

    open spec fn view(&self) -> RecordView {
        RecordView {
            chunk_id: self.chunk_id,
            range: self.range,
            samples: self.samples@,
            sample_range: self.sample_range,
            sub_segments: self.sub_segments@,
            sub_origins: self.sub_origins@,
            phase: self.phase@,
            asr_result: self.asr_result,
        }
    }
}

impl RecordView {
    /// The chunk's transcript, given what recognition and alignment gave.
    pub open spec fn transcript(self, result: AsrResult, words: Seq<WordView>) -> TranscriptView {
        TranscriptView {
            range: self.range,
            language: result.language,
            text: text::smol_str_chars(result.text),
            words,
            avg_logprob: result.avg_logprob,
            no_speech_prob: result.no_speech_prob,
            temperature: result.temperature,
            vad_segments: self.sub_segments,
            chunk_id: self.chunk_id,
        }
    }

    /// The event of a chunk whose outcome is known.
    pub open spec fn outcome(self) -> EventView {
        match self.phase {
            PhaseView::Ready(transcript) => EventView::Transcript(transcript),
            PhaseView::Failed(failure) => EventView::Error {
                chunk_id: self.chunk_id,
                error: failure,
            },
            _ => arbitrary(),
        }
    }
}

/// Dispatch state.
pub struct Dispatch {
    cut_pending: VecDeque<(ChunkId, MergedChunk)>,
    in_flight: BTreeMap<u64, ChunkRecord>,
    next_emit_chunk_id: ChunkId,
    pending_commands: VecDeque<Command>,
    pending_events: VecDeque<Event>,
    word_alignment: bool,
    max_in_flight: usize,
    asr_params: AsrParams,
    /// Suspends the limit on chunks in flight.
    draining_for_restart: bool,
    /// A command handed back by the driver; it is polled first.
    parked_command: Option<Command>,
}

/// What a [`Dispatch`] holds.
#[verifier::ext_equal]
pub struct DispatchView {
    /// Chunks waiting for a slot, oldest first.
    pub pending: Seq<(u64, ChunkView)>,
    /// Chunks in flight, by identity.
    pub in_flight: Map<u64, RecordView>,
    /// The chunk whose event is queued next.
    pub next_emit: u64,
    /// Commands not polled yet, oldest first.
    pub commands: Seq<CommandView>,
    /// Events not polled yet, oldest first.
    pub events: Seq<EventView>,
    /// Whether recognised text is aligned.
    pub word_alignment: bool,
    /// Number of slots.
    pub max_in_flight: int,
    /// Recognition parameters of every chunk.
    pub asr_params: AsrParams,
    /// The limit on chunks in flight is suspended.
    pub draining: bool,
    /// A command handed back by the driver.
    pub parked: Option<CommandView>,
}

/// The pieces of a chunk as ranges of output timestamps.
pub open spec fn output_ranges(buffer: SampleBufferView, subs: Seq<SubRange>) -> Seq<TimeRange> {
    subs.map_values(|sub: SubRange| buffer.output_range(sub.range))
}

/// The origins of the pieces of a chunk.
pub open spec fn origins(subs: Seq<SubRange>) -> Seq<SubOrigin> {
    subs.map_values(|sub: SubRange| sub.origin)
}

/// The chunk's audio is live and its timestamps fit in an `i64`.
pub open spec fn extractable(buffer: SampleBufferView, chunk: ChunkView) -> bool {
    &&& buffer.output_tb is Some
    &&& buffer.live(chunk.range)
    &&& buffer.pts_fits(chunk.range.start as int)
    &&& buffer.pts_fits(chunk.range.end as int)
    &&& forall|i: int|
        0 <= i < chunk.subs.len() ==> chunk.range.start <= (
        #[trigger] chunk.subs[i]).range.start <= chunk.subs[i].range.end <= chunk.range.end
}

/// A chunk as it enters flight.
pub open spec fn fresh_record(id: u64, chunk: ChunkView, buffer: SampleBufferView) -> RecordView {
    RecordView {
        chunk_id: ChunkId { raw: id },
        range: buffer.output_range(chunk.range),
        samples: buffer.slice(chunk.range),
        sample_range: chunk.range,
        sub_segments: output_ranges(buffer, chunk.subs),
        sub_origins: origins(chunk.subs),
        phase: PhaseView::AwaitingAsr,
        asr_result: None,
    }
}

/// Least start of the waiting chunks.
pub open spec fn least_start(pending: Seq<(u64, ChunkView)>) -> u64
    recommends
        pending.len() > 0,
    decreases pending.len(),
{
    let last = pending.last().1.range.start;
    if pending.len() <= 1 {
        last
    } else {
        let before = least_start(pending.drop_last());
        if before <= last {
            before
        } else {
            last
        }
    }
}

impl DispatchView {
    /// Chunks in flight are filed under their identity; those waiting are in
    /// order and none of them is in flight; none is older than the chunk whose
    /// event comes next. The limit on chunks in flight is kept. The queued
    /// events are about consecutive chunks, up to the one before the next.
    pub open spec fn inv(self) -> bool {
        &&& self.events_in_order()
        &&& self.in_flight.dom().finite()
        &&& forall|id: u64| #[trigger]
            self.in_flight.contains_key(id) ==> {
                &&& self.in_flight[id].chunk_id.raw == id
                &&& self.next_emit <= id < u64::MAX
                &&& self.in_flight[id].phase matches PhaseView::Ready(t) ==> t.chunk_id.raw == id
            }
        &&& forall|i: int|
            0 <= i < self.pending.len() ==> {
                &&& self.next_emit <= (#[trigger] self.pending[i]).0 < u64::MAX
                &&& !self.in_flight.contains_key(self.pending[i].0)
            }
        &&& forall|i: int, j: int|
            0 <= i < j < self.pending.len() ==> (#[trigger] self.pending[i]).0 < (
            #[trigger] self.pending[j]).0
        &&& self.draining || self.in_flight.len() <= self.max_in_flight
    }

    /// The chunk whose event is polled next.
    pub open spec fn next_polled(self) -> int {
        self.next_emit - self.events.len()
    }

    /// The queued events are about consecutive chunks, up to the one before
    /// `next_emit`.
    pub open spec fn events_in_order(self) -> bool {
        &&& self.next_polled() >= 0
        &&& forall|i: int|
            0 <= i < self.events.len() ==> (#[trigger] self.events[i]).chunk()
                == self.next_polled() + i
    }

    /// The identity is newer than that of every waiting chunk and is not in
    /// use.
    pub open spec fn fresh_id(self, id: u64) -> bool {
        &&& self.next_emit <= id < u64::MAX
        &&& !self.in_flight.contains_key(id)
        &&& forall|i: int| 0 <= i < self.pending.len() ==> (#[trigger] self.pending[i]).0 < id
    }

    /// The chunk waits for a slot.
    pub open spec fn waiting(self, id: u64) -> bool {
        exists|i: int| 0 <= i < self.pending.len() && (#[trigger] self.pending[i]).0 == id
    }

    /// Of the chunks before `next`, those without an event are in flight or
    /// waiting, and no other chunk is. The waiting ones are the newest.
    pub open spec fn accounts_for(self, next: u64) -> bool {
        &&& self.next_emit <= next
        &&& forall|id: u64|
            self.next_emit <= id < next <==> (#[trigger] self.in_flight.contains_key(id)
                || self.waiting(id))
        &&& forall|id: u64, i: int|
            #![trigger self.in_flight.contains_key(id), self.pending[i]]
            self.in_flight.contains_key(id) && 0 <= i < self.pending.len() ==> id
                < self.pending[i].0
    }

    /// The audio of every waiting chunk is still live.
    pub open spec fn pending_live(self, buffer: SampleBufferView) -> bool {
        forall|i: int|
            0 <= i < self.pending.len() ==> extractable(buffer, (#[trigger] self.pending[i]).1)
    }

    /// A slot is open.
    pub open spec fn has_slot(self) -> bool {
        self.draining || self.in_flight.len() < self.max_in_flight
    }

    /// The chunk whose event comes next is in flight and its outcome is known.
    pub open spec fn head_done(self) -> bool {
        self.in_flight.contains_key(self.next_emit) && self.in_flight[self.next_emit].phase.done()
    }

    /// The chunk and every older one without an event have an outcome.
    pub open spec fn in_turn(self, id: u64) -> bool {
        forall|k: u64|
            self.next_emit <= k <= id ==> #[trigger] self.in_flight.contains_key(k) && (
            self.in_flight[k].phase is Ready || self.in_flight[k].phase is Failed)
    }

    /// Nothing is left to do: no slot is open while chunks wait, and the next
    /// event is not known yet.
    pub open spec fn settled(self) -> bool {
        &&& self.pending.len() > 0 ==> !self.has_slot()
        &&& !self.head_done()
    }

    /// The chunk enters flight: its audio is extracted and recognition is
    /// asked for.
    pub open spec fn promoted(
        self,
        id: u64,
        chunk: ChunkView,
        buffer: SampleBufferView,
    ) -> DispatchView {
        DispatchView {
            in_flight: self.in_flight.insert(id, fresh_record(id, chunk, buffer)),
            commands: self.commands.push(
                CommandView::RunAsr {
                    chunk_id: ChunkId { raw: id },
                    samples: buffer.slice(chunk.range),
                    sample_rate: time::SAMPLE_RATE_HZ,
                    params: self.asr_params,
                },
            ),
            ..self
        }
    }

    /// A chunk was cut: it enters flight if a slot is open, else it waits.
    pub open spec fn after_emit(
        self,
        id: u64,
        chunk: ChunkView,
        buffer: SampleBufferView,
    ) -> DispatchView {
        if self.has_slot() {
            self.promoted(id, chunk, buffer)
        } else {
            DispatchView { pending: self.pending.push((id, chunk)), ..self }
        }
    }

    /// The event of the next chunk is queued.
    pub open spec fn flush_one(self) -> DispatchView {
        DispatchView {
            in_flight: self.in_flight.remove(self.next_emit),
            events: self.events.push(self.in_flight[self.next_emit].outcome()),
            next_emit: (self.next_emit + 1) as u64,
            ..self
        }
    }

    /// Events are queued in chunk order up to the first chunk whose outcome is
    /// not known.
    pub open spec fn flushed(self) -> DispatchView
        decreases self.in_flight.len(),
        when self.in_flight.dom().finite()
    {
        if self.head_done() {
            self.flush_one().flushed()
        } else {
            self
        }
    }

    /// The stream position from which audio is still needed: the least start
    /// of a waiting chunk, or `fallback` if none waits.
    pub open spec fn low_water(self, fallback: u64) -> u64 {
        if self.pending.len() == 0 {
            fallback
        } else {
            least_start(self.pending)
        }
    }

    /// Waiting chunks enter flight, oldest first, while slots are open.
    pub open spec fn refilled(self, buffer: SampleBufferView) -> DispatchView
        decreases self.pending.len(),
    {
        if !self.draining && self.in_flight.len() < self.max_in_flight && self.pending.len() > 0 {
            DispatchView {
                pending: self.pending.subrange(1, self.pending.len() as int),
                ..self.promoted(self.pending[0].0, self.pending[0].1, buffer)
            }.refilled(buffer)
        } else {
            self
        }
    }

    /// The command that is polled next.
    pub open spec fn next_command(self) -> Option<CommandView> {
        match self.parked {
            Some(command) => Some(command),
            None => if self.commands.len() > 0 {
                Some(self.commands[0])
            } else {
                None
            },
        }
    }

    /// The state after a command was polled.
    pub open spec fn after_poll_command(self) -> DispatchView {
        if self.parked is Some {
            DispatchView { parked: None, ..self }
        } else if self.commands.len() > 0 {
            DispatchView {
                commands: self.commands.subrange(1, self.commands.len() as int),
                ..self
            }
        } else {
            self
        }
    }

    /// The state after a command was handed back.
    pub open spec fn after_unpoll(self, command: CommandView) -> DispatchView {
        DispatchView { parked: Some(command), ..self }
    }

    /// The state after an event was polled.
    pub open spec fn after_poll_event(self) -> DispatchView {
        if self.events.len() > 0 {
            DispatchView { events: self.events.subrange(1, self.events.len() as int), ..self }
        } else {
            self
        }
    }

    /// No command, event or chunk is left.
    pub open spec fn idle(self) -> bool {
        &&& self.parked is None
        &&& self.commands.len() == 0
        &&& self.events.len() == 0
        &&& self.in_flight.is_empty()
        &&& self.pending.len() == 0
    }

    /// The chunk is in flight and its recognition result is not known yet.
    pub open spec fn unrecognised(self, id: u64) -> bool {
        self.in_flight.contains_key(id) && self.in_flight[id].asr_result is None
    }

    /// The chunk is in flight and its recognition result is known.
    pub open spec fn recognised(self, id: u64) -> bool {
        self.in_flight.contains_key(id) && self.in_flight[id].asr_result is Some
    }

    /// Chunks that enter flight from now on are recognised in this language.
    pub open spec fn with_language_hint(self, hint: Lang) -> DispatchView {
        DispatchView {
            asr_params: AsrParams { language_hint: Some(hint), ..self.asr_params },
            ..self
        }
    }

    /// The record of a chunk is replaced.
    pub open spec fn with_record(self, id: u64, record: RecordView) -> DispatchView {
        DispatchView { in_flight: self.in_flight.insert(id, record), ..self }
    }

    /// Recognised text goes on to alignment.
    pub open spec fn goes_to_alignment(self, result: AsrResult) -> bool {
        self.word_alignment && text::smol_str_chars(result.text).len() > 0
    }

    /// Alignment of a chunk is asked for.
    pub open spec fn awaiting_alignment(self, id: u64, result: AsrResult) -> DispatchView {
        let record = self.in_flight[id];
        DispatchView {
            commands: self.commands.push(
                CommandView::RunAlignment {
                    chunk_id: record.chunk_id,
                    samples: record.samples,
                    sub_segments: record.sub_segments,
                    text: text::smol_str_chars(result.text),
                    language: result.language,
                },
            ),
            ..self.with_record(
                id,
                RecordView {
                    phase: PhaseView::AwaitingAlignment,
                    asr_result: Some(result),
                    ..record
                },
            )
        }
    }

    /// The transcript of a chunk is known.
    pub open spec fn transcribed(
        self,
        id: u64,
        result: AsrResult,
        words: Seq<WordView>,
    ) -> DispatchView {
        let record = self.in_flight[id];
        self.with_record(
            id,
            RecordView {
                phase: PhaseView::Ready(record.transcript(result, words)),
                asr_result: Some(result),
                ..record
            },
        )
    }

    /// The work on a chunk failed.
    pub open spec fn failed(self, id: u64, failure: WorkFailure) -> DispatchView {
        self.with_record(
            id,
            RecordView { phase: PhaseView::Failed(failure), ..self.in_flight[id] },
        )
    }

    /// The stream position up to which `buffer` is trimmed where the chunk
    /// under construction starts at `open`: the low-water mark, or that start
    /// if it comes first.
    pub open spec fn trim_mark(self, buffer: SampleBufferView, open: Option<u64>) -> int {
        let low = self.low_water(buffer.appended as u64) as int;
        match open {
            Some(start) => if start < low {
                start as int
            } else {
                low
            },
            None => low,
        }
    }

    /// The buffer once an outcome was recorded: without the audio that neither
    /// a waiting chunk nor the one under construction, which starts at `open`,
    /// needs.
    pub open spec fn buffer_after_inject(
        self,
        buffer: SampleBufferView,
        open: Option<u64>,
    ) -> SampleBufferView {
        buffer.after_trim(self.flushed().trim_mark(buffer, open))
    }

    /// The state once an outcome was recorded: events queued, then free slots
    /// refilled.
    pub open spec fn after_inject(
        self,
        buffer: SampleBufferView,
        open: Option<u64>,
    ) -> DispatchView {
        self.flushed().refilled(self.buffer_after_inject(buffer, open))
    }

    /// The answer to the outcome of a chunk: it must be known.
    pub open spec fn answer(known: bool, id: u64) -> Result<(), TranscriberError> {
        if known {
            Ok(())
        } else {
            Err(TranscriberError::UnknownChunk(ChunkId { raw: id }))
        }
    }

    /// The answer to a recognition result.
    pub open spec fn asr_answer(self, id: u64) -> Result<(), TranscriberError> {
        DispatchView::answer(self.in_flight.contains_key(id), id)
    }

    /// The answer to an alignment result.
    pub open spec fn alignment_answer(self, id: u64) -> Result<(), TranscriberError> {
        DispatchView::answer(self.recognised(id), id)
    }

    /// The answer to a failure.
    pub open spec fn failure_answer(self, id: u64) -> Result<(), TranscriberError> {
        DispatchView::answer(self.in_flight.contains_key(id), id)
    }

    /// The state once recognition of a chunk in flight gave a result.
    pub open spec fn after_asr_result(
        self,
        id: u64,
        result: AsrResult,
        buffer: SampleBufferView,
        open: Option<u64>,
    ) -> DispatchView {
        if self.goes_to_alignment(result) {
            self.awaiting_alignment(id, result)
        } else {
            self.transcribed(id, result, Seq::empty()).after_inject(buffer, open)
        }
    }

    /// The buffer once recognition of a chunk in flight gave a result.
    pub open spec fn buffer_after_asr_result(
        self,
        id: u64,
        result: AsrResult,
        buffer: SampleBufferView,
        open: Option<u64>,
    ) -> SampleBufferView {
        if self.goes_to_alignment(result) {
            buffer
        } else {
            self.transcribed(id, result, Seq::empty()).buffer_after_inject(buffer, open)
        }
    }

    /// The state once alignment of a recognised chunk gave its words.
    pub open spec fn after_alignment_result(
        self,
        id: u64,
        words: Seq<WordView>,
        buffer: SampleBufferView,
        open: Option<u64>,
    ) -> DispatchView {
        self.transcribed(id, self.in_flight[id].asr_result->0, words).after_inject(buffer, open)
    }

    /// The state once the work on a chunk in flight failed.
    pub open spec fn after_failure(
        self,
        id: u64,
        failure: WorkFailure,
        buffer: SampleBufferView,
        open: Option<u64>,
    ) -> DispatchView {
        self.failed(id, failure).after_inject(buffer, open)
    }
}

/// Identities and views of the waiting chunks.
pub open spec fn pending_views(pending: Seq<(ChunkId, MergedChunk)>) -> Seq<(u64, ChunkView)> {
    pending.map_values(|entry: (ChunkId, MergedChunk)| (entry.0.raw, entry.1@))
}

impl View for Dispatch {
    type V = DispatchView;

    closed spec fn view(&self) -> DispatchView {
        DispatchView {
            pending: pending_views(self.cut_pending@),
            in_flight: self.in_flight@.map_values(|record: ChunkRecord| record@),
            next_emit: self.next_emit_chunk_id.raw,
            commands: self.pending_commands@.map_values(|command: Command| command@),
            events: self.pending_events@.map_values(|event: Event| event@),
            word_alignment: self.word_alignment,
            max_in_flight: self.max_in_flight as int,
            asr_params: self.asr_params,
            draining: self.draining_for_restart,
            parked: match self.parked_command {
                Some(command) => Some(command@),
                None => None,
            },
        }
    }
}

proof fn lemma_views_insert(m: Map<u64, ChunkRecord>, id: u64, record: ChunkRecord)
    ensures
        m.insert(id, record).map_values(|r: ChunkRecord| r@) == m.map_values(
            |r: ChunkRecord| r@,
        ).insert(id, record@),
{
    assert(m.insert(id, record).map_values(|r: ChunkRecord| r@) =~= m.map_values(
        |r: ChunkRecord| r@,
    ).insert(id, record@));
}

proof fn lemma_views_remove(m: Map<u64, ChunkRecord>, id: u64)
    ensures
        m.remove(id).map_values(|r: ChunkRecord| r@) == m.map_values(|r: ChunkRecord| r@).remove(
            id,
        ),
{
    assert(m.remove(id).map_values(|r: ChunkRecord| r@) =~= m.map_values(
        |r: ChunkRecord| r@,
    ).remove(id));
}

proof fn lemma_views_dom(m: Map<u64, ChunkRecord>)
    ensures
        m.map_values(|r: ChunkRecord| r@).dom() == m.dom(),
{
    assert(m.map_values(|r: ChunkRecord| r@).dom() =~= m.dom());
}

/// Queueing the event of the next chunk keeps the invariant and frees a slot.
/// The event is about that chunk.
pub proof fn flushing_one_keeps_the_invariant(d: DispatchView)
    requires
        d.inv(),
        d.head_done(),
    ensures
        d.flush_one().inv(),
        d.flush_one().in_flight.len() == d.in_flight.len() - 1,
        d.in_flight[d.next_emit].outcome().chunk() == d.next_emit,
        d.flush_one().next_emit == d.next_emit + 1,
        d.flush_one().pending == d.pending,
{
    let e = d.flush_one();
    assert(d.in_flight.remove(d.next_emit).dom() =~= d.in_flight.dom().remove(d.next_emit));
    assert forall|id: u64| #[trigger] e.in_flight.contains_key(id) implies {
        &&& e.in_flight[id].chunk_id.raw == id
        &&& e.next_emit <= id < u64::MAX
        &&& e.in_flight[id].phase matches PhaseView::Ready(t) ==> t.chunk_id.raw == id
    } by {
        assert(d.in_flight.contains_key(id));
    }
    assert forall|i: int| 0 <= i < e.pending.len() implies {
        &&& e.next_emit <= (#[trigger] e.pending[i]).0 < u64::MAX
        &&& !e.in_flight.contains_key(e.pending[i].0)
    } by {
        assert(!d.in_flight.contains_key(d.pending[i].0));
    }
}

/// Queueing events keeps the invariant and the waiting chunks; afterwards the
/// next event is not known yet.
pub proof fn flushing_keeps_the_invariant(d: DispatchView)
    requires
        d.inv(),
    ensures
        d.flushed().inv(),
        !d.flushed().head_done(),
        d.flushed().pending == d.pending,
        d.flushed().draining == d.draining,
        d.flushed().max_in_flight == d.max_in_flight,
        d.flushed().commands == d.commands,
        d.flushed().asr_params == d.asr_params,
        d.flushed().word_alignment == d.word_alignment,
        d.flushed().parked == d.parked,
    decreases d.in_flight.len(),
{
    if d.head_done() {
        flushing_one_keeps_the_invariant(d);
        flushing_keeps_the_invariant(d.flush_one());
    }
}

/// A chunk that enters flight keeps the invariant where a slot was open.
pub proof fn promoting_keeps_the_invariant(
    d: DispatchView,
    id: u64,
    chunk: ChunkView,
    buffer: SampleBufferView,
)
    requires
        d.inv(),
        d.has_slot(),
        d.next_emit <= id < u64::MAX,
        !d.in_flight.contains_key(id),
        forall|i: int| 0 <= i < d.pending.len() ==> (#[trigger] d.pending[i]).0 != id,
    ensures
        d.promoted(id, chunk, buffer).inv(),
        d.promoted(id, chunk, buffer).in_flight.len() == d.in_flight.len() + 1,
        !d.head_done() ==> !d.promoted(id, chunk, buffer).head_done(),
{
    let e = d.promoted(id, chunk, buffer);
    assert(e.in_flight.dom() =~= d.in_flight.dom().insert(id));
    assert forall|k: u64| #[trigger] e.in_flight.contains_key(k) implies {
        &&& e.in_flight[k].chunk_id.raw == k
        &&& e.next_emit <= k < u64::MAX
        &&& e.in_flight[k].phase matches PhaseView::Ready(t) ==> t.chunk_id.raw == k
    } by {
        if k != id {
            assert(d.in_flight.contains_key(k));
        }
    }
    assert forall|i: int| 0 <= i < e.pending.len() implies {
        &&& e.next_emit <= (#[trigger] e.pending[i]).0 < u64::MAX
        &&& !e.in_flight.contains_key(e.pending[i].0)
    } by {
        assert(d.pending[i].0 != id);
        assert(!d.in_flight.contains_key(d.pending[i].0));
    }
}

/// Replacing the record of a chunk in flight keeps the invariant.
pub proof fn refiling_keeps_the_invariant(d: DispatchView, id: u64, record: RecordView)
    requires
        d.inv(),
        d.in_flight.contains_key(id),
        record.chunk_id.raw == id,
        record.phase matches PhaseView::Ready(t) ==> t.chunk_id.raw == id,
    ensures
        d.with_record(id, record).inv(),
        d.with_record(id, record).in_flight.dom() == d.in_flight.dom(),
{
    let e = d.with_record(id, record);
    assert(e.in_flight.dom() =~= d.in_flight.dom());
    assert forall|k: u64| #[trigger] e.in_flight.contains_key(k) implies {
        &&& e.in_flight[k].chunk_id.raw == k
        &&& e.next_emit <= k < u64::MAX
        &&& e.in_flight[k].phase matches PhaseView::Ready(t) ==> t.chunk_id.raw == k
    } by {
        assert(d.in_flight.contains_key(k));
    }
    assert forall|i: int| 0 <= i < e.pending.len() implies {
        &&& e.next_emit <= (#[trigger] e.pending[i]).0 < u64::MAX
        &&& !e.in_flight.contains_key(e.pending[i].0)
    } by {
        assert(!d.in_flight.contains_key(d.pending[i].0));
    }
}

/// Events are queued in strict chunk order, one per chunk: those that a flush
/// adds are about the chunks `next_emit`, `next_emit + 1` and so on, these
/// chunks leave flight, and the others stay as they were.
pub proof fn events_come_in_chunk_order(d: DispatchView)
    requires
        d.inv(),
    ensures
        ({
            let e = d.flushed();
            let added = e.next_emit - d.next_emit;
            &&& added >= 0
            &&& e.events.len() == d.events.len() + added
            &&& e.events.take(d.events.len() as int) == d.events
            &&& forall|i: int|
                0 <= i < added ==> (#[trigger] e.events[d.events.len() + i]).chunk()
                    == d.next_emit + i
            &&& forall|id: u64| #[trigger]
                e.in_flight.contains_key(id) <==> d.in_flight.contains_key(id) && id
                    >= e.next_emit
            &&& forall|id: u64| #[trigger]
                e.in_flight.contains_key(id) ==> e.in_flight[id] == d.in_flight[id]
            &&& forall|id: u64|
                d.next_emit <= id < e.next_emit ==> #[trigger] d.in_flight.contains_key(id)
        }),
    decreases d.in_flight.len(),
{
    if d.head_done() {
        flushing_one_keeps_the_invariant(d);
        let f = d.flush_one();
        events_come_in_chunk_order(f);
        let e = d.flushed();
        let added = e.next_emit - d.next_emit;
        assert(e.events.take(d.events.len() as int) =~= d.events) by {
            assert(e.events.take(f.events.len() as int) == f.events);
            assert forall|i: int| 0 <= i < d.events.len() implies e.events[i] == d.events[i] by {
                assert(e.events.take(f.events.len() as int)[i] == f.events[i]);
            }
        }
        assert forall|i: int| 0 <= i < added implies (
        #[trigger] e.events[d.events.len() + i]).chunk() == d.next_emit + i by {
            if i == 0 {
                assert(e.events.take(f.events.len() as int)[d.events.len() as int]
                    == f.events[d.events.len() as int]);
            } else {
                assert(e.events[f.events.len() + (i - 1)].chunk() == f.next_emit + (i - 1));
            }
        }
        assert forall|id: u64| d.next_emit <= id < e.next_emit implies #[trigger]
        d.in_flight.contains_key(id) by {
            if id != d.next_emit {
                assert(f.in_flight.contains_key(id));
            }
        }
    } else {
        assert(d.events.take(d.events.len() as int) =~= d.events);
    }
}

/// Waiting chunks enter flight in the order in which they were cut, each
/// exactly once, and no more of them than there are open slots.
pub proof fn slots_are_filled_in_order(d: DispatchView, buffer: SampleBufferView)
    requires
        d.inv(),
    ensures
        ({
            let e = d.refilled(buffer);
            let entered = d.pending.len() - e.pending.len();
            &&& e.inv()
            &&& entered >= 0
            &&& e.pending == d.pending.subrange(entered, d.pending.len() as int)
            &&& e.commands.len() == d.commands.len() + entered
            &&& e.commands.take(d.commands.len() as int) == d.commands
            &&& forall|i: int|
                0 <= i < entered ==> #[trigger] e.commands[d.commands.len() + i]
                    == (CommandView::RunAsr {
                    chunk_id: ChunkId { raw: d.pending[i].0 },
                    samples: buffer.slice(d.pending[i].1.range),
                    sample_rate: time::SAMPLE_RATE_HZ,
                    params: d.asr_params,
                })
            &&& forall|id: u64| #[trigger]
                e.in_flight.contains_key(id) <==> d.in_flight.contains_key(id) || exists|i: int|
                    0 <= i < entered && (#[trigger] d.pending[i]).0 == id
            &&& forall|id: u64| #[trigger]
                d.in_flight.contains_key(id) ==> e.in_flight[id] == d.in_flight[id]
            &&& forall|i: int|
                0 <= i < entered ==> {
                    let record = e.in_flight[(#[trigger] d.pending[i]).0];
                    &&& record.chunk_id.raw == d.pending[i].0
                    &&& record.samples == buffer.slice(d.pending[i].1.range)
                    &&& record.sample_range == d.pending[i].1.range
                    &&& record.range == buffer.output_range(d.pending[i].1.range)
                    &&& record.phase is AwaitingAsr
                    &&& record.asr_result is None
                }
            &&& e.in_flight.len() == d.in_flight.len() + entered
            &&& entered == if d.draining || d.in_flight.len() >= d.max_in_flight {
                0
            } else if d.pending.len() <= d.max_in_flight - d.in_flight.len() {
                d.pending.len() as int
            } else {
                d.max_in_flight - d.in_flight.len()
            }
            &&& e.events == d.events
            &&& e.next_emit == d.next_emit
            &&& e.draining == d.draining
            &&& e.max_in_flight == d.max_in_flight
            &&& e.asr_params == d.asr_params
            &&& e.word_alignment == d.word_alignment
            &&& e.parked == d.parked
            &&& !d.head_done() ==> !e.head_done()
            &&& !e.draining && e.pending.len() > 0 ==> e.in_flight.len() >= e.max_in_flight
        }),
    decreases d.pending.len(),
{
    if !d.draining && d.in_flight.len() < d.max_in_flight && d.pending.len() > 0 {
        let n = d.pending.len() as int;
        let popped = DispatchView { pending: d.pending.subrange(1, n), ..d };
        let f = DispatchView {
            pending: popped.pending,
            ..d.promoted(d.pending[0].0, d.pending[0].1, buffer)
        };
        promoting_the_oldest_keeps_the_invariant(d, buffer);
        assert(f.in_flight.dom() =~= d.in_flight.dom().insert(d.pending[0].0));
        assert(!d.in_flight.contains_key(d.pending[0].0));
        slots_are_filled_in_order(f, buffer);
        let e = d.refilled(buffer);
        let entered = d.pending.len() - e.pending.len();
        assert(e.pending =~= d.pending.subrange(entered, n));
        assert(e.commands.take(d.commands.len() as int) =~= d.commands) by {
            assert forall|i: int| 0 <= i < d.commands.len() implies e.commands[i]
                == d.commands[i] by {
                assert(e.commands.take(f.commands.len() as int)[i] == f.commands[i]);
            }
        }
        assert forall|i: int| 0 <= i < entered implies #[trigger] e.commands[d.commands.len() + i]
            == (CommandView::RunAsr {
            chunk_id: ChunkId { raw: d.pending[i].0 },
            samples: buffer.slice(d.pending[i].1.range),
            sample_rate: time::SAMPLE_RATE_HZ,
            params: d.asr_params,
        }) by {
            if i == 0 {
                assert(e.commands.take(f.commands.len() as int)[d.commands.len() as int]
                    == f.commands[d.commands.len() as int]);
            } else {
                assert(f.pending[i - 1] == d.pending[i]);
                assert(e.commands[f.commands.len() + (i - 1)] == (CommandView::RunAsr {
                    chunk_id: ChunkId { raw: f.pending[i - 1].0 },
                    samples: buffer.slice(f.pending[i - 1].1.range),
                    sample_rate: time::SAMPLE_RATE_HZ,
                    params: f.asr_params,
                }));
            }
        }
        assert forall|id: u64| #[trigger] d.in_flight.contains_key(id) implies e.in_flight[id]
            == d.in_flight[id] by {
            assert(f.in_flight.contains_key(id));
        }
        assert forall|i: int| 0 <= i < entered implies {
            let record = e.in_flight[(#[trigger] d.pending[i]).0];
            &&& record.chunk_id.raw == d.pending[i].0
            &&& record.samples == buffer.slice(d.pending[i].1.range)
            &&& record.sample_range == d.pending[i].1.range
            &&& record.range == buffer.output_range(d.pending[i].1.range)
            &&& record.phase is AwaitingAsr
            &&& record.asr_result is None
        } by {
            if i == 0 {
                assert(f.in_flight.contains_key(d.pending[0].0));
            } else {
                assert(f.pending[i - 1] == d.pending[i]);
            }
        }
        assert forall|id: u64| #[trigger]
            e.in_flight.contains_key(id) <==> d.in_flight.contains_key(id) || exists|i: int|
                0 <= i < entered && (#[trigger] d.pending[i]).0 == id by {
            if e.in_flight.contains_key(id) && !d.in_flight.contains_key(id) {
                if !f.in_flight.contains_key(id) {
                    let i = choose|i: int|
                        0 <= i < f.pending.len() - e.pending.len() && (
                        #[trigger] f.pending[i]).0 == id;
                    assert(d.pending[i + 1].0 == id);
                } else {
                    assert(d.pending[0].0 == id);
                }
            }
            if exists|i: int| 0 <= i < entered && (#[trigger] d.pending[i]).0 == id {
                let i = choose|i: int| 0 <= i < entered && (#[trigger] d.pending[i]).0 == id;
                if i == 0 {
                    assert(f.in_flight.contains_key(id));
                } else {
                    assert(f.pending[i - 1].0 == id);
                }
            }
        }
    } else {
        assert(d.pending.subrange(0, d.pending.len() as int) =~= d.pending);
        assert(d.commands.take(d.commands.len() as int) =~= d.commands);
    }
}

/// The events that a flush adds tell the outcomes of the chunks they are about,
/// and the flush stops only where no outcome is known.
pub proof fn events_tell_the_outcomes(d: DispatchView)
    requires
        d.inv(),
    ensures
        ({
            let e = d.flushed();
            &&& forall|id: u64|
                d.next_emit <= id < e.next_emit ==> {
                    &&& #[trigger] d.in_flight.contains_key(id)
                    &&& match d.in_flight[id].phase {
                        PhaseView::Ready(transcript) => e.events[d.events.len() + (id
                            - d.next_emit)] == EventView::Transcript(transcript),
                        PhaseView::Failed(failure) => e.events[d.events.len() + (id
                            - d.next_emit)] == (EventView::Error {
                            chunk_id: ChunkId { raw: id },
                            error: failure,
                        }),
                        _ => false,
                    }
                }
            &&& d.in_flight.contains_key(e.next_emit) ==> match d.in_flight[e.next_emit].phase {
                PhaseView::AwaitingAsr => true,
                PhaseView::AwaitingAlignment => true,
                _ => false,
            }
        }),
    decreases d.in_flight.len(),
{
    events_come_in_chunk_order(d);
    if d.head_done() {
        let f = d.flush_one();
        let e = d.flushed();
        let n = d.events.len() as int;
        flushing_one_keeps_the_invariant(d);
        events_tell_the_outcomes(f);
        events_come_in_chunk_order(f);
        assert(e.events.take(f.events.len() as int)[n] == f.events[n]);
        assert forall|id: u64| d.next_emit <= id < e.next_emit implies {
            &&& #[trigger] d.in_flight.contains_key(id)
            &&& match d.in_flight[id].phase {
                PhaseView::Ready(transcript) => e.events[n + (id - d.next_emit)]
                    == EventView::Transcript(transcript),
                PhaseView::Failed(failure) => e.events[n + (id - d.next_emit)]
                    == (EventView::Error { chunk_id: ChunkId { raw: id }, error: failure }),
                _ => false,
            }
        } by {
            if id != d.next_emit {
                assert(f.in_flight.contains_key(id));
                assert(n + (id - d.next_emit) == f.events.len() + (id - f.next_emit));
            }
        }
        assert(e.in_flight.contains_key(e.next_emit) == d.in_flight.contains_key(e.next_emit));
        assert(f.in_flight.contains_key(e.next_emit) == d.in_flight.contains_key(e.next_emit));
    }
}

/// An outcome that is recorded is reported at once if every older chunk is
/// reported or has its outcome too; else the chunk stays in flight with it.
/// Either way the chunks that wait for an outcome stay as they are.
pub proof fn recorded_outcomes_are_reported_in_turn(
    d: DispatchView,
    id: u64,
    buffer: SampleBufferView,
    open: Option<u64>,
)
    requires
        d.inv(),
        d.in_flight.contains_key(id),
    ensures
        ({
            let e = d.after_inject(buffer, open);
            &&& d.in_turn(id) ==> {
                let at = d.events.len() + (id - d.next_emit);
                &&& !e.in_flight.contains_key(id)
                &&& at < e.events.len()
                &&& match d.in_flight[id].phase {
                    PhaseView::Ready(transcript) => e.events[at] == EventView::Transcript(
                        transcript,
                    ),
                    PhaseView::Failed(failure) => e.events[at] == (EventView::Error {
                        chunk_id: ChunkId { raw: id },
                        error: failure,
                    }),
                    _ => false,
                }
            }
            &&& !d.in_turn(id) ==> e.in_flight.contains_key(id) && e.in_flight[id] == d.in_flight[id]
            &&& forall|k: int|
                d.commands.len() <= k < e.commands.len() ==> #[trigger] e.commands[k] is RunAsr
            &&& e.commands.len() >= d.commands.len()
            &&& e.commands.take(d.commands.len() as int) == d.commands
        }),
{
    let f = d.flushed();
    let trimmed = d.buffer_after_inject(buffer, open);
    let e = d.after_inject(buffer, open);
    flushing_keeps_the_invariant(d);
    events_come_in_chunk_order(d);
    events_tell_the_outcomes(d);
    slots_are_filled_in_order(f, trimmed);
    assert forall|k: int| d.commands.len() <= k < e.commands.len() implies #[trigger]
    e.commands[k] is RunAsr by {
        let i = k - d.commands.len();
        assert(e.commands[f.commands.len() + i] is RunAsr);
    }
    if d.in_turn(id) {
        if f.next_emit <= id {
            assert(d.in_flight.contains_key(f.next_emit));
            assert(false);
        }
        if e.in_flight.contains_key(id) {
            assert(!f.in_flight.contains_key(id));
            let i = choose|i: int|
                0 <= i < f.pending.len() - e.pending.len() && (#[trigger] f.pending[i]).0 == id;
            assert(f.next_emit <= f.pending[i].0);
            assert(false);
        }
    } else {
        let k = choose|k: u64|
            d.next_emit <= k <= id && !(#[trigger] d.in_flight.contains_key(k) && (
            d.in_flight[k].phase is Ready || d.in_flight[k].phase is Failed));
        if f.next_emit > id {
            assert(d.in_flight.contains_key(k));
            assert(false);
        }
        assert(f.in_flight.contains_key(id));
    }
}

/// Where words are aligned, recognised text in whatever language goes to
/// alignment: the chunk waits for it, one command asks for it with that text
/// and that language, and nothing else changes.
pub proof fn recognised_text_goes_to_alignment(
    d: DispatchView,
    id: u64,
    result: AsrResult,
    buffer: SampleBufferView,
    open: Option<u64>,
)
    requires
        d.inv(),
        d.in_flight.contains_key(id),
        d.word_alignment,
        text::smol_str_chars(result.text).len() > 0,
    ensures
        ({
            let e = d.after_asr_result(id, result, buffer, open);
            let record = d.in_flight[id];
            &&& e.in_flight.dom() == d.in_flight.dom()
            &&& e.in_flight[id].phase is AwaitingAlignment
            &&& e.in_flight[id].asr_result == Some(result)
            &&& e.in_flight[id].chunk_id.raw == id
            &&& e.in_flight[id].range == record.range
            &&& e.in_flight[id].samples == record.samples
            &&& e.in_flight[id].sample_range == record.sample_range
            &&& e.in_flight[id].sub_segments == record.sub_segments
            &&& e.in_flight[id].sub_origins == record.sub_origins
            &&& forall|k: u64| k != id && #[trigger]
                d.in_flight.contains_key(k) ==> e.in_flight[k] == d.in_flight[k]
            &&& e.commands.len() == d.commands.len() + 1
            &&& e.commands.take(d.commands.len() as int) == d.commands
            &&& e.commands.last() == (CommandView::RunAlignment {
                chunk_id: ChunkId { raw: id },
                samples: record.samples,
                sub_segments: record.sub_segments,
                text: text::smol_str_chars(result.text),
                language: result.language,
            })
            &&& e.events == d.events
            &&& e.next_emit == d.next_emit
            &&& e.pending == d.pending
            &&& e.parked == d.parked
            &&& e.asr_params == d.asr_params
            &&& e.word_alignment == d.word_alignment
            &&& e.max_in_flight == d.max_in_flight
            &&& e.draining == d.draining
            &&& d.buffer_after_asr_result(id, result, buffer, open) == buffer
        }),
{
    let e = d.after_asr_result(id, result, buffer, open);
    assert(e.in_flight.dom() =~= d.in_flight.dom());
    assert(e.commands.take(d.commands.len() as int) =~= d.commands);
}

/// Where words are not aligned, or nothing was recognised, a recognition result
/// finishes the chunk without asking for alignment: its transcript holds what
/// was recognised and no words. It is reported at once if it is the chunk's
/// turn.
pub proof fn unaligned_text_finishes_the_chunk(
    d: DispatchView,
    id: u64,
    result: AsrResult,
    buffer: SampleBufferView,
    open: Option<u64>,
)
    requires
        d.inv(),
        d.in_flight.contains_key(id),
        !d.word_alignment || text::smol_str_chars(result.text).len() == 0,
    ensures
        ({
            let e = d.after_asr_result(id, result, buffer, open);
            let transcript = TranscriptView {
                range: d.in_flight[id].range,
                language: result.language,
                text: text::smol_str_chars(result.text),
                words: Seq::empty(),
                avg_logprob: result.avg_logprob,
                no_speech_prob: result.no_speech_prob,
                temperature: result.temperature,
                vad_segments: d.in_flight[id].sub_segments,
                chunk_id: ChunkId { raw: id },
            };
            &&& e.in_flight.contains_key(id) ==> e.in_flight[id].phase == PhaseView::Ready(
                transcript,
            )
            &&& !e.in_flight.contains_key(id) ==> e.events.len() > d.events.len() + (id
                - d.next_emit) && e.events[d.events.len() + (id - d.next_emit)]
                == EventView::Transcript(transcript)
            &&& id == d.next_emit ==> !e.in_flight.contains_key(id)
            &&& e.commands.len() >= d.commands.len()
            &&& e.commands.take(d.commands.len() as int) == d.commands
            &&& forall|k: int|
                d.commands.len() <= k < e.commands.len() ==> #[trigger] e.commands[k] is RunAsr
        }),
{
    let r = d.transcribed(id, result, Seq::empty());
    refiling_keeps_the_invariant(d, id, r.in_flight[id]);
    recorded_outcomes_are_reported_in_turn(r, id, buffer, open);
    assert(id == d.next_emit ==> r.in_turn(id));
}

/// Alignment finishes a chunk: its transcript holds what was recognised and
/// exactly the aligned words. It is reported at once if it is the chunk's turn.
pub proof fn aligned_words_finish_the_chunk(
    d: DispatchView,
    id: u64,
    words: Seq<WordView>,
    buffer: SampleBufferView,
    open: Option<u64>,
)
    requires
        d.inv(),
        d.in_flight.contains_key(id),
        d.in_flight[id].asr_result is Some,
    ensures
        d.recognised(id),
        ({
            let e = d.after_alignment_result(id, words, buffer, open);
            let result = d.in_flight[id].asr_result->0;
            let transcript = TranscriptView {
                range: d.in_flight[id].range,
                language: result.language,
                text: text::smol_str_chars(result.text),
                words,
                avg_logprob: result.avg_logprob,
                no_speech_prob: result.no_speech_prob,
                temperature: result.temperature,
                vad_segments: d.in_flight[id].sub_segments,
                chunk_id: ChunkId { raw: id },
            };
            &&& e.in_flight.contains_key(id) ==> e.in_flight[id].phase == PhaseView::Ready(
                transcript,
            )
            &&& !e.in_flight.contains_key(id) ==> e.events.len() > d.events.len() + (id
                - d.next_emit) && e.events[d.events.len() + (id - d.next_emit)]
                == EventView::Transcript(transcript)
            &&& id == d.next_emit ==> !e.in_flight.contains_key(id)
            &&& e.commands.len() >= d.commands.len()
            &&& e.commands.take(d.commands.len() as int) == d.commands
            &&& forall|k: int|
                d.commands.len() <= k < e.commands.len() ==> #[trigger] e.commands[k] is RunAsr
        }),
{
    let r = d.transcribed(id, d.in_flight[id].asr_result->0, words);
    refiling_keeps_the_invariant(d, id, r.in_flight[id]);
    recorded_outcomes_are_reported_in_turn(r, id, buffer, open);
    assert(id == d.next_emit ==> r.in_turn(id));
}

/// Outcomes are taken of the chunks in flight, and of no others, whatever came of
/// the chunk before; aligned words are taken only once it was recognised. The
/// refusal names the chunk.
pub proof fn outcomes_are_taken_of_chunks_in_flight(d: DispatchView, id: u64)
    ensures
        d.asr_answer(id) is Ok <==> d.in_flight.contains_key(id),
        d.failure_answer(id) is Ok <==> d.in_flight.contains_key(id),
        d.alignment_answer(id) is Ok <==> d.in_flight.contains_key(id)
            && d.in_flight[id].asr_result is Some,
        d.asr_answer(id) matches Err(error) ==> error == TranscriberError::UnknownChunk(
            ChunkId { raw: id },
        ),
        d.failure_answer(id) matches Err(error) ==> error == TranscriberError::UnknownChunk(
            ChunkId { raw: id },
        ),
        d.alignment_answer(id) matches Err(error) ==> error == TranscriberError::UnknownChunk(
            ChunkId { raw: id },
        ),
{
}

/// Audio is needed from where the first of the waiting chunks starts, whatever
/// their order; where none waits, from the given position.
pub proof fn audio_is_needed_from_the_first_waiting_start(d: DispatchView, fallback: u64)
    ensures
        d.pending.len() == 0 ==> d.low_water(fallback) == fallback,
        forall|i: int|
            0 <= i < d.pending.len() ==> d.low_water(fallback) <= (
            #[trigger] d.pending[i]).1.range.start,
        d.pending.len() > 0 ==> exists|i: int|
            0 <= i < d.pending.len() && d.low_water(fallback) == (
            #[trigger] d.pending[i]).1.range.start,
{
    if d.pending.len() > 0 {
        least_start_is_least(d.pending);
    }
}

/// A failure, of whatever kind, finishes the chunk. It is reported as it was
/// given, at once if it is the chunk's turn.
pub proof fn failures_finish_the_chunk(
    d: DispatchView,
    id: u64,
    failure: WorkFailure,
    buffer: SampleBufferView,
    open: Option<u64>,
)
    requires
        d.inv(),
        d.in_flight.contains_key(id),
    ensures
        ({
            let e = d.after_failure(id, failure, buffer, open);
            &&& e.in_flight.contains_key(id) ==> e.in_flight[id].phase == PhaseView::Failed(
                failure,
            )
            &&& !e.in_flight.contains_key(id) ==> e.events.len() > d.events.len() + (id
                - d.next_emit) && e.events[d.events.len() + (id - d.next_emit)]
                == (EventView::Error { chunk_id: ChunkId { raw: id }, error: failure })
            &&& id == d.next_emit ==> !e.in_flight.contains_key(id)
            &&& e.commands.len() >= d.commands.len()
            &&& e.commands.take(d.commands.len() as int) == d.commands
            &&& forall|k: int|
                d.commands.len() <= k < e.commands.len() ==> #[trigger] e.commands[k] is RunAsr
        }),
{
    let r = d.failed(id, failure);
    refiling_keeps_the_invariant(d, id, r.in_flight[id]);
    recorded_outcomes_are_reported_in_turn(r, id, buffer, open);
    assert(id == d.next_emit ==> r.in_turn(id));
}

/// A chunk that is cut while fewer chunks than the limit are in flight, or
/// while the limit is suspended, enters flight with its audio, its bounds and
/// one recognition command; otherwise it waits behind the others.
pub proof fn cut_chunks_take_an_open_slot(
    d: DispatchView,
    id: u64,
    chunk: ChunkView,
    buffer: SampleBufferView,
)
    requires
        d.inv(),
        d.fresh_id(id),
    ensures
        ({
            let e = d.after_emit(id, chunk, buffer);
            let record = e.in_flight[id];
            &&& d.draining || d.in_flight.len() < d.max_in_flight ==> {
                &&& e.pending == d.pending
                &&& e.in_flight.dom() == d.in_flight.dom().insert(id)
                &&& forall|k: u64| #[trigger]
                    d.in_flight.contains_key(k) ==> e.in_flight[k] == d.in_flight[k]
                &&& record.chunk_id.raw == id
                &&& record.samples == buffer.slice(chunk.range)
                &&& record.sample_range == chunk.range
                &&& record.range == buffer.output_range(chunk.range)
                &&& record.phase is AwaitingAsr
                &&& record.asr_result is None
                &&& record.sub_segments.len() == chunk.subs.len()
                &&& record.sub_origins.len() == chunk.subs.len()
                &&& forall|i: int|
                    0 <= i < chunk.subs.len() ==> {
                        &&& #[trigger] record.sub_segments[i] == buffer.output_range(
                            chunk.subs[i].range,
                        )
                        &&& record.sub_origins[i] == chunk.subs[i].origin
                    }
                &&& e.commands == d.commands.push(
                    CommandView::RunAsr {
                        chunk_id: ChunkId { raw: id },
                        samples: buffer.slice(chunk.range),
                        sample_rate: 16_000,
                        params: d.asr_params,
                    },
                )
            }
            &&& !d.draining && d.in_flight.len() >= d.max_in_flight ==> {
                &&& e.pending == d.pending.push((id, chunk))
                &&& e.in_flight == d.in_flight
                &&& e.commands == d.commands
            }
            &&& e.events == d.events
            &&& e.next_emit == d.next_emit
            &&& e.parked == d.parked
            &&& e.asr_params == d.asr_params
            &&& e.word_alignment == d.word_alignment
            &&& e.max_in_flight == d.max_in_flight
            &&& e.draining == d.draining
        }),
{
    let e = d.after_emit(id, chunk, buffer);
    if d.draining || d.in_flight.len() < d.max_in_flight {
        assert(e.in_flight.dom() =~= d.in_flight.dom().insert(id));
    }
}

/// After an outcome the buffer keeps all the audio that a waiting chunk or the
/// chunk under construction needs, and none of what comes before: it starts at
/// the earliest of their starts, or at the end of the audio where none waits and
/// nothing is needed of it, unless it starts later already.
pub proof fn only_needed_audio_is_kept(
    d: DispatchView,
    buffer: SampleBufferView,
    open: Option<u64>,
) -> (needed: int)
    requires
        d.inv(),
        d.pending_live(buffer),
        0 <= buffer.appended <= u64::MAX,
        buffer.samples.len() <= buffer.appended,
    ensures
        ({
            let b = d.buffer_after_inject(buffer, open);
            &&& b.appended == buffer.appended
            &&& b.appended - b.samples.len() == vstd::math::max(
                buffer.appended - buffer.samples.len(),
                needed,
            )
            &&& b.samples == buffer.samples.skip(buffer.samples.len() - b.samples.len())
            &&& b.output_tb == buffer.output_tb
            &&& b.anchor == buffer.anchor
            &&& b.cap == buffer.cap
            &&& b.gap_tolerance == buffer.gap_tolerance
            &&& forall|i: int|
                0 <= i < d.pending.len() ==> needed <= (#[trigger] d.pending[i]).1.range.start
            &&& open matches Some(start) ==> needed <= start
            &&& d.pending.len() == 0 ==> needed <= buffer.appended
            &&& {
                ||| exists|i: int|
                    0 <= i < d.pending.len() && needed == (#[trigger] d.pending[i]).1.range.start
                ||| open is Some && needed == open->0
                ||| d.pending.len() == 0 && needed == buffer.appended
            }
        }),
{
    flushing_keeps_the_invariant(d);
    let f = d.flushed();
    let b = d.buffer_after_inject(buffer, open);
    trimming_keeps_pending_live(f, buffer, open);
    if d.pending.len() > 0 {
        least_start_is_least(d.pending);
        assert(extractable(buffer, d.pending[0].1));
    }
    assert(b.samples =~= buffer.samples.skip(buffer.samples.len() - b.samples.len()));
    f.trim_mark(buffer, open)
}

/// Commands are polled in the order in which they were queued, but one that was
/// handed back comes before them; polling takes that command and changes
/// nothing else.
pub proof fn commands_are_polled_in_order(d: DispatchView)
    ensures
        d.parked is Some ==> {
            &&& d.next_command() == d.parked
            &&& d.after_poll_command().parked is None
            &&& d.after_poll_command().commands == d.commands
        },
        d.parked is None ==> {
            &&& d.next_command() is None <==> d.commands.len() == 0
            &&& d.next_command() matches Some(command) ==> d.commands == seq![command]
                + d.after_poll_command().commands
            &&& d.next_command() is None ==> d.after_poll_command() == d
            &&& d.after_poll_command().parked is None
        },
        d.after_poll_command().pending == d.pending,
        d.after_poll_command().in_flight == d.in_flight,
        d.after_poll_command().next_emit == d.next_emit,
        d.after_poll_command().events == d.events,
        d.after_poll_command().word_alignment == d.word_alignment,
        d.after_poll_command().max_in_flight == d.max_in_flight,
        d.after_poll_command().asr_params == d.asr_params,
        d.after_poll_command().draining == d.draining,
{
    if d.parked is None && d.commands.len() > 0 {
        assert(d.commands =~= seq![d.commands[0]] + d.after_poll_command().commands);
    }
}

/// Events are polled in the order in which they were queued, and polling one
/// changes nothing else.
pub proof fn events_are_polled_in_order(d: DispatchView)
    ensures
        d.events.len() > 0 ==> d.events == seq![d.events[0]] + d.after_poll_event().events,
        d.events.len() == 0 ==> d.after_poll_event() == d,
        d.after_poll_event().pending == d.pending,
        d.after_poll_event().in_flight == d.in_flight,
        d.after_poll_event().next_emit == d.next_emit,
        d.after_poll_event().commands == d.commands,
        d.after_poll_event().parked == d.parked,
        d.after_poll_event().word_alignment == d.word_alignment,
        d.after_poll_event().max_in_flight == d.max_in_flight,
        d.after_poll_event().asr_params == d.asr_params,
        d.after_poll_event().draining == d.draining,
{
    if d.events.len() > 0 {
        assert(d.events =~= seq![d.events[0]] + d.after_poll_event().events);
    }
}

/// The machine is idle exactly if no chunk waits or is in flight and no
/// command and no event is left to poll.
pub proof fn idle_means_nothing_is_left(d: DispatchView)
    requires
        d.inv(),
    ensures
        d.idle() <==> {
            &&& d.pending.len() == 0
            &&& forall|id: u64| !(#[trigger] d.in_flight.contains_key(id))
            &&& d.next_command() is None
            &&& d.events.len() == 0
        },
{
    if d.idle() {
        assert forall|id: u64| !(#[trigger] d.in_flight.contains_key(id)) by {}
    }
    if forall|id: u64| !(#[trigger] d.in_flight.contains_key(id)) {
        assert(d.in_flight.dom() =~= Set::empty());
    }
}

/// A language hint reaches every later recognition command and changes no other
/// parameter.
pub proof fn language_hints_change_nothing_else(d: DispatchView, hint: Lang)
    ensures
        ({
            let e = d.with_language_hint(hint);
            let before = d.asr_params;
            let after = e.asr_params;
            &&& after.language_hint == Some(hint)
            &&& after == (AsrParams { language_hint: Some(hint), ..before })
            &&& e == (DispatchView { asr_params: after, ..d })
        }),
{
}

/// A chunk that was cut is accounted for, and no slot stays open while chunks
/// wait.
pub proof fn cut_chunks_are_accounted_for(
    d: DispatchView,
    next: u64,
    chunk: ChunkView,
    buffer: SampleBufferView,
)
    requires
        d.inv(),
        d.settled(),
        d.accounts_for(next),
        next < u64::MAX,
    ensures
        d.fresh_id(next),
        d.after_emit(next, chunk, buffer).inv(),
        d.after_emit(next, chunk, buffer).settled(),
        d.after_emit(next, chunk, buffer).accounts_for((next + 1) as u64),
{
    let e = d.after_emit(next, chunk, buffer);
    assert(!d.in_flight.contains_key(next));
    assert forall|i: int| 0 <= i < d.pending.len() implies (#[trigger] d.pending[i]).0 < next by {
        assert(d.waiting(d.pending[i].0));
        assert(d.in_flight.contains_key(d.pending[i].0) || d.waiting(d.pending[i].0));
    }
    if d.has_slot() {
        promoting_keeps_the_invariant(d, next, chunk, buffer);
        assert forall|id: u64|
            e.next_emit <= id < next + 1 <==> (#[trigger] e.in_flight.contains_key(id)
                || e.waiting(id)) by {
            assert(d.in_flight.contains_key(id) || id == next <==> e.in_flight.contains_key(id));
            assert(d.waiting(id) == e.waiting(id));
        }
    } else {
        assert forall|id: u64|
            e.next_emit <= id < next + 1 <==> (#[trigger] e.in_flight.contains_key(id)
                || e.waiting(id)) by {
            assert(d.in_flight.contains_key(id) == e.in_flight.contains_key(id));
            if d.waiting(id) {
                let i = choose|i: int|
                    0 <= i < d.pending.len() && (#[trigger] d.pending[i]).0 == id;
                assert(e.pending[i].0 == id);
            }
            if id == next {
                assert(e.pending[d.pending.len() as int].0 == id);
            }
            if e.waiting(id) && id != next {
                let i = choose|i: int|
                    0 <= i < e.pending.len() && (#[trigger] e.pending[i]).0 == id;
                assert(d.pending[i].0 == id);
            }
        }
        assert forall|id: u64, i: int|
            #![trigger e.in_flight.contains_key(id), e.pending[i]]
            e.in_flight.contains_key(id) && 0 <= i < e.pending.len() implies id
            < e.pending[i].0 by {
            assert(d.in_flight.contains_key(id));
            if i < d.pending.len() {
                assert(e.pending[i] == d.pending[i]);
            }
        }
    }
}

/// Recording an outcome loses no chunk: each chunk is still accounted for, no
/// slot stays open while chunks wait, and no event that could be queued is
/// held back.
pub proof fn recorded_chunks_are_accounted_for(
    d: DispatchView,
    next: u64,
    buffer: SampleBufferView,
    open: Option<u64>,
)
    requires
        d.inv(),
        !d.draining,
        d.accounts_for(next),
    ensures
        d.after_inject(buffer, open).inv(),
        d.after_inject(buffer, open).settled(),
        d.after_inject(buffer, open).accounts_for(next),
        !d.after_inject(buffer, open).draining,
        d.after_inject(buffer, open).max_in_flight == d.max_in_flight,
        d.after_inject(buffer, open).asr_params == d.asr_params,
        d.after_inject(buffer, open).word_alignment == d.word_alignment,
        d.after_inject(buffer, open).parked == d.parked,
{
    let f = d.flushed();
    let trimmed = d.buffer_after_inject(buffer, open);
    let e = d.after_inject(buffer, open);
    flushing_keeps_the_invariant(d);
    events_come_in_chunk_order(d);
    slots_are_filled_in_order(f, trimmed);
    let entered = f.pending.len() - e.pending.len();
    if f.next_emit > next {
        assert(d.in_flight.contains_key(next));
    }
    assert forall|id: u64|
        e.next_emit <= id < next <==> (#[trigger] e.in_flight.contains_key(id)
            || e.waiting(id)) by {
        assert(f.in_flight.contains_key(id) <==> d.in_flight.contains_key(id) && id
            >= f.next_emit);
        assert(d.next_emit <= id < next <==> d.in_flight.contains_key(id) || d.waiting(id));
        if d.waiting(id) {
            let i = choose|i: int| 0 <= i < d.pending.len() && (#[trigger] d.pending[i]).0 == id;
            assert(f.pending[i].0 == id);
            assert(f.next_emit <= id);
            if i >= entered {
                assert(e.pending[i - entered].0 == id);
            }
        }
        if e.waiting(id) {
            let i = choose|i: int| 0 <= i < e.pending.len() && (#[trigger] e.pending[i]).0 == id;
            assert(d.pending[i + entered].0 == id);
        }
        if e.in_flight.contains_key(id) && !f.in_flight.contains_key(id) {
            let i = choose|i: int| 0 <= i < entered && (#[trigger] f.pending[i]).0 == id;
            assert(d.pending[i].0 == id);
        }
    }
    assert forall|id: u64, i: int|
        #![trigger e.in_flight.contains_key(id), e.pending[i]]
        e.in_flight.contains_key(id) && 0 <= i < e.pending.len() implies id < e.pending[i].0 by {
        assert(e.pending[i] == d.pending[i + entered]);
        if f.in_flight.contains_key(id) {
            assert(d.in_flight.contains_key(id));
        } else {
            let j = choose|j: int| 0 <= j < entered && (#[trigger] f.pending[j]).0 == id;
            assert(f.pending[j].0 < f.pending[i + entered].0);
        }
    }
}

/// While a chunk has no event, work is under way: where there is at least one
/// slot and chunks are accounted for, the chunk whose event comes next is in
/// flight and its outcome is still awaited.
pub proof fn the_next_chunk_is_in_flight(d: DispatchView, next: u64)
    requires
        d.inv(),
        d.settled(),
        !d.draining,
        d.accounts_for(next),
        d.max_in_flight > 0,
        d.next_emit < next,
    ensures
        d.in_flight.contains_key(d.next_emit),
        !d.in_flight[d.next_emit].phase.done(),
{
    let head = d.next_emit;
    assert(d.in_flight.contains_key(head) || d.waiting(head));
    if !d.in_flight.contains_key(head) {
        let i = choose|i: int| 0 <= i < d.pending.len() && (#[trigger] d.pending[i]).0 == head;
        assert(d.in_flight.len() > 0);
        let id = d.in_flight.dom().choose();
        assert(d.in_flight.contains_key(id));
        assert(id < d.pending[i].0);
        assert(d.next_emit <= id);
        assert(false);
    }
}

/// A command that was handed back is polled next, and polling it undoes handing
/// it back.
pub proof fn handed_back_commands_come_first(d: DispatchView, command: CommandView)
    requires
        d.parked is None,
    ensures
        ({
            let e = d.after_unpoll(command);
            e.next_command() == Some(command) && e.after_poll_command() == d
        }),
{
}

proof fn promoting_the_oldest_keeps_the_invariant(d: DispatchView, buffer: SampleBufferView)
    requires
        d.inv(),
        d.has_slot(),
        d.pending.len() > 0,
    ensures
        ({
            let popped = DispatchView {
                pending: d.pending.subrange(1, d.pending.len() as int),
                ..d
            };
            let e = popped.promoted(d.pending[0].0, d.pending[0].1, buffer);
            &&& e.inv()
            &&& !d.head_done() ==> !e.head_done()
            &&& d.pending_live(buffer) ==> e.pending_live(buffer)
            &&& e == DispatchView {
                pending: popped.pending,
                ..d.promoted(d.pending[0].0, d.pending[0].1, buffer)
            }
        }),
{
    let popped = DispatchView { pending: d.pending.subrange(1, d.pending.len() as int), ..d };
    assert(popped.inv()) by {
        assert forall|i: int| 0 <= i < popped.pending.len() implies {
            &&& popped.next_emit <= (#[trigger] popped.pending[i]).0 < u64::MAX
            &&& !popped.in_flight.contains_key(popped.pending[i].0)
        } by {
            assert(popped.pending[i] == d.pending[i + 1]);
        }
        assert forall|i: int, j: int| 0 <= i < j < popped.pending.len() implies (
        #[trigger] popped.pending[i]).0 < (#[trigger] popped.pending[j]).0 by {
            assert(d.pending[i + 1].0 < d.pending[j + 1].0);
        }
    }
    assert(!d.in_flight.contains_key(d.pending[0].0));
    assert forall|i: int| 0 <= i < popped.pending.len() implies (#[trigger] popped.pending[i]).0
        != d.pending[0].0 by {
        assert(d.pending[0].0 < d.pending[i + 1].0);
    }
    promoting_keeps_the_invariant(popped, d.pending[0].0, d.pending[0].1, buffer);
    if d.pending_live(buffer) {
        let e = popped.promoted(d.pending[0].0, d.pending[0].1, buffer);
        assert forall|i: int| 0 <= i < e.pending.len() implies extractable(
            buffer,
            (#[trigger] e.pending[i]).1,
        ) by {
            assert(e.pending[i] == d.pending[i + 1]);
        }
    }
}

/// The least start is the start of a waiting chunk, and no waiting chunk
/// starts earlier.
pub proof fn least_start_is_least(pending: Seq<(u64, ChunkView)>)
    requires
        pending.len() > 0,
    ensures
        exists|i: int|
            0 <= i < pending.len() && least_start(pending) == (
            #[trigger] pending[i]).1.range.start,
        forall|i: int|
            0 <= i < pending.len() ==> least_start(pending) <= (
            #[trigger] pending[i]).1.range.start,
    decreases pending.len(),
{
    let n = pending.len() - 1;
    assert(pending[n] == pending.last());
    if pending.len() > 1 {
        let before = pending.drop_last();
        least_start_is_least(before);
        let k = choose|i: int|
            0 <= i < before.len() && least_start(before) == (#[trigger] before[i]).1.range.start;
        assert(pending[k] == before[k]);
        assert forall|i: int| 0 <= i < pending.len() implies least_start(pending) <= (
        #[trigger] pending[i]).1.range.start by {
            if i < n {
                assert(before[i] == pending[i]);
            }
        }
    }
}

/// Trimming keeps the audio of every waiting chunk, and that of the chunk under
/// construction.
pub proof fn trimming_keeps_pending_live(
    d: DispatchView,
    buffer: SampleBufferView,
    open: Option<u64>,
)
    requires
        d.pending_live(buffer),
        0 <= buffer.appended <= u64::MAX,
        buffer.samples.len() <= buffer.appended,
    ensures
        0 <= d.trim_mark(buffer, open) <= buffer.appended,
        d.pending_live(buffer.after_trim(d.trim_mark(buffer, open))),
        open matches Some(start) ==> (buffer.dropped() <= start ==> buffer.after_trim(
            d.trim_mark(buffer, open),
        ).dropped() <= start),
{
    let low = d.trim_mark(buffer, open);
    if d.pending.len() > 0 {
        least_start_is_least(d.pending);
        assert(extractable(buffer, d.pending[0].1));
    }
    let trimmed = buffer.after_trim(low);
    assert forall|i: int| 0 <= i < d.pending.len() implies extractable(
        trimmed,
        (#[trigger] d.pending[i]).1,
    ) by {
        let chunk = d.pending[i].1;
        assert(extractable(buffer, chunk));
        crate::machine::buffer::trimming_keeps_later_samples(buffer, low, chunk.range);
    }
}

impl Dispatch {
    /// No chunk yet.
    pub fn new(asr_params: AsrParams, word_alignment: bool, max_in_flight: usize) -> (dispatch:
        Dispatch)
        ensures
            dispatch@ == (DispatchView {
                pending: Seq::empty(),
                in_flight: Map::empty(),
                next_emit: 0,
                commands: Seq::empty(),
                events: Seq::empty(),
                word_alignment,
                max_in_flight: max_in_flight as int,
                asr_params,
                draining: false,
                parked: None,
            }),
            dispatch@.inv(),
            dispatch@.settled(),
    {
        let dispatch = Dispatch {
            cut_pending: VecDeque::new(),
            in_flight: BTreeMap::new(),
            next_emit_chunk_id: ChunkId::from_raw(0),
            pending_commands: VecDeque::new(),
            pending_events: VecDeque::new(),
            word_alignment,
            max_in_flight,
            asr_params,
            draining_for_restart: false,
            parked_command: None,
        };
        proof {
            assert(dispatch@.pending =~= Seq::empty());
            assert(dispatch@.in_flight =~= Map::empty());
            assert(dispatch@.commands =~= Seq::empty());
            assert(dispatch@.events =~= Seq::empty());
        }
        dispatch
    }

    /// Queue the events of finished chunks, in chunk order, up to the first
    /// chunk that is not finished.
    fn flush_in_order_events(&mut self)
        requires
            old(self)@.inv(),
        ensures
            final(self)@ == old(self)@.flushed(),
            final(self)@.inv(),
    {
        loop
            invariant_except_break
                self@.inv(),
                self@.flushed() == old(self)@.flushed(),
            ensures
                self@.inv(),
                self@ == old(self)@.flushed(),
            decreases self@.in_flight.len(),
        {
            let head_id: u64 = self.next_emit_chunk_id.raw;
            let ghost before = *self;
            let done: bool = match self.in_flight.get(&head_id) {
                Some(record) => match record.phase {
                    ChunkPhase::Ready { .. } => true,
                    ChunkPhase::FailedReady { .. } => true,
                    _ => false,
                },
                None => false,
            };
            assert(done == self@.head_done());
            if !done {
                break;
            }
            proof {
                flushing_one_keeps_the_invariant(before@);
                lemma_views_remove(before.in_flight@, head_id);
            }
            if let Some(record) = self.in_flight.remove(&head_id) {
                assert(record@ == before@.in_flight[head_id]);
                let event: Option<Event> = match record.phase {
                    ChunkPhase::Ready { transcript } => Some(Event::Transcript(transcript)),
                    ChunkPhase::FailedReady { failure } => Some(
                        Event::Error { chunk_id: ChunkId::from_raw(head_id), error: failure },
                    ),
                    _ => None,
                };
                if let Some(event) = event {
                    self.pending_events.push_back(event);
                    assert(self@.events =~= before@.events.push(event@));
                }
            }
            self.next_emit_chunk_id = ChunkId::from_raw(head_id + 1);
            assert(self@ =~= before@.flush_one());
        }
    }

    /// The chunk enters flight: extract its audio and ask for recognition.
    fn promote(&mut self, chunk_id: ChunkId, chunk: MergedChunk, buffer: &SampleBuffer)
        requires
            buffer.wf(),
            extractable(buffer@, chunk@),
        ensures
            final(self)@ == old(self)@.promoted(chunk_id.raw, chunk@, buffer@),
    {
        let samples: ChunkAudio = Arc::new(buffer.extract(chunk.range));
        proof {
            buffer.lemma_appended_fits();
        }
        let range: TimeRange = buffer.samples_to_output_range(chunk.range);
        let mut sub_segments: Vec<TimeRange> = Vec::new();
        let mut sub_origins: Vec<SubOrigin> = Vec::new();
        let mut i: usize = 0;
        while i < chunk.subs.len()
            invariant
                i <= chunk.subs@.len(),
                buffer.wf(),
                buffer@.appended <= i64::MAX,
                extractable(buffer@, chunk@),
                sub_segments@ =~= output_ranges(buffer@, chunk.subs@.take(i as int)),
                sub_origins@ =~= origins(chunk.subs@.take(i as int)),
            decreases chunk.subs@.len() - i,
        {
            let sub: SubRange = chunk.subs[i];
            proof {
                assert(sub == chunk@.subs[i as int]);
                buffer.lemma_pts_between(chunk.range, sub.range);
            }
            sub_segments.push(buffer.samples_to_output_range(sub.range));
            sub_origins.push(sub.origin);
            i += 1;
        }
        assert(chunk.subs@.take(i as int) =~= chunk.subs@);
        let record = ChunkRecord {
            chunk_id,
            range,
            samples: command::share_audio(&samples),
            sample_range: chunk.range,
            sub_segments,
            sub_origins,
            phase: ChunkPhase::AwaitingAsr,
            asr_result: None,
        };
        proof {
            lemma_views_insert(self.in_flight@, chunk_id.raw, record);
        }
        self.in_flight.insert(chunk_id.raw, record);
        let command = Command::RunAsr {
            chunk_id,
            samples,
            sample_rate: time::SAMPLE_RATE_HZ,
            params: self.asr_params.clone(),
        };
        self.pending_commands.push_back(command);
        proof {
            assert(self@.commands =~= old(self)@.commands.push(command@));
            assert(self@ =~= old(self)@.promoted(chunk_id.raw, chunk@, buffer@));
        }
    }

    /// A chunk was cut. It enters flight if a slot is open, else it waits.
    pub fn on_emit(&mut self, chunk: MergedChunk, chunk_id: ChunkId, buffer: &SampleBuffer)
        requires
            old(self)@.inv(),
            old(self)@.fresh_id(chunk_id.raw),
            buffer.wf(),
            old(self)@.has_slot() ==> extractable(buffer@, chunk@),
        ensures
            final(self)@ == old(self)@.after_emit(chunk_id.raw, chunk@, buffer@),
            final(self)@.inv(),
    {
        proof {
            lemma_views_dom(self.in_flight@);
        }
        if self.draining_for_restart || self.in_flight.len() < self.max_in_flight {
            proof {
                promoting_keeps_the_invariant(self@, chunk_id.raw, chunk@, buffer@);
            }
            self.promote(chunk_id, chunk, buffer);
        } else {
            self.cut_pending.push_back((chunk_id, chunk));
            assert(self@.pending =~= old(self)@.pending.push((chunk_id.raw, chunk@)));
        }
    }

    /// The stream position from which audio is still needed: the least start
    /// of a waiting chunk. Chunks in flight hold their own audio. If no chunk
    /// waits it is `fallback_high_water`.
    pub fn low_water_samples(&self, fallback_high_water: u64) -> (low: u64)
        ensures
            low == self@.low_water(fallback_high_water),
    {
        let mut low: u64 = fallback_high_water;
        let mut i: usize = 0;
        while i < self.cut_pending.len()
            invariant
                i <= self.cut_pending@.len(),
                i == 0 ==> low == fallback_high_water,
                i > 0 ==> low == least_start(pending_views(self.cut_pending@).take(i as int)),
            decreases self.cut_pending@.len() - i,
        {
            let start: u64 = self.cut_pending[i].1.range.start;
            proof {
                let views = pending_views(self.cut_pending@);
                assert(views.take(i + 1).drop_last() =~= views.take(i as int));
                assert(views.take(i + 1).last().1.range.start == start);
            }
            if i == 0 || start < low {
                low = start;
            }
            i += 1;
        }
        assert(pending_views(self.cut_pending@).take(i as int) =~= pending_views(
            self.cut_pending@,
        ));
        low
    }

    /// An outcome was recorded: queue the events that it unblocks, trim the
    /// buffer to what waiting chunks need, and let waiting chunks into the
    /// slots that opened. If a chunk is under construction, its audio is kept
    /// from its start `open` on.
    pub fn after_inject(&mut self, buffer: &mut SampleBuffer, open: Option<u64>)
        requires
            old(self)@.inv(),
            old(self)@.pending_live(old(buffer)@),
            old(buffer).wf(),
        ensures
            final(self)@ == old(self)@.after_inject(old(buffer)@, open),
            final(self)@.inv(),
            final(self)@.settled() || final(self)@.draining,
            final(self)@.pending_live(final(buffer)@),
            final(buffer)@ == old(self)@.buffer_after_inject(old(buffer)@, open),
            final(buffer).wf(),
    {
        proof {
            flushing_keeps_the_invariant(self@);
            buffer.lemma_appended_fits();
        }
        self.flush_in_order_events();
        let low: u64 = self.low_water_samples(buffer.absolute_sample_offset());
        let mark: u64 = match open {
            Some(start) => if start < low {
                start
            } else {
                low
            },
            None => low,
        };
        proof {
            trimming_keeps_pending_live(self@, buffer@, open);
        }
        buffer.trim_to(mark);
        while !self.draining_for_restart && self.in_flight.len() < self.max_in_flight
            && self.cut_pending.len() > 0
            invariant
                self@.inv(),
                !self@.head_done(),
                self@.pending_live(buffer@),
                buffer.wf(),
                buffer@ == old(self)@.buffer_after_inject(old(buffer)@, open),
                self@.refilled(buffer@) == old(self)@.after_inject(old(buffer)@, open),
            decreases self.cut_pending@.len(),
        {
            let ghost before = *self;
            proof {
                lemma_views_dom(self.in_flight@);
            }
            if let Some((chunk_id, chunk)) = self.cut_pending.pop_front() {
                let ghost popped = DispatchView {
                    pending: before@.pending.subrange(1, before@.pending.len() as int),
                    ..before@
                };
                proof {
                    assert(before@.pending[0] == (chunk_id.raw, chunk@));
                    assert(self@.pending =~= popped.pending);
                    assert(self@ =~= popped);
                    promoting_the_oldest_keeps_the_invariant(before@, buffer@);
                }
                self.promote(chunk_id, chunk, buffer);
            }
        }
        proof {
            lemma_views_dom(self.in_flight@);
        }
    }

    /// Recognition of a chunk gave a result. Its text goes on to alignment if
    /// there is any and alignment is on; else the chunk is finished.
    pub fn inject_asr_result(
        &mut self,
        chunk_id: ChunkId,
        result: AsrResult,
        buffer: &mut SampleBuffer,
        open: Option<u64>,
    ) -> (answer: Result<(), TranscriberError>)
        requires
            old(self)@.inv(),
            old(self)@.pending_live(old(buffer)@),
            old(buffer).wf(),
        ensures
            final(self)@.inv(),
            final(self)@.pending_live(final(buffer)@),
            final(buffer).wf(),
            answer == old(self)@.asr_answer(chunk_id.raw),
            match answer {
                Err(error) => {
                    &&& !old(self)@.in_flight.contains_key(chunk_id.raw)
                    &&& error == TranscriberError::UnknownChunk(chunk_id)
                    &&& final(self)@ == old(self)@
                    &&& final(buffer)@ == old(buffer)@
                },
                Ok(_) => {
                    &&& old(self)@.in_flight.contains_key(chunk_id.raw)
                    &&& final(self)@ == old(self)@.after_asr_result(
                        chunk_id.raw,
                        result,
                        old(buffer)@,
                        open,
                    )
                    &&& final(buffer)@ == old(self)@.buffer_after_asr_result(
                        chunk_id.raw,
                        result,
                        old(buffer)@,
                        open,
                    )
                },
            },
    {
        let id: u64 = chunk_id.raw;
        proof {
            lemma_views_remove(self.in_flight@, id);
        }
        match self.in_flight.remove(&id) {
            None => {
                assert(self.in_flight@ =~= old(self).in_flight@);
                Err(TranscriberError::UnknownChunk(chunk_id))
            },
            Some(record) => {
                assert(record@ == old(self)@.in_flight[id]);
                if self.word_alignment && !result.text.as_str().is_empty() {
                    let command = Command::RunAlignment {
                        chunk_id: record.chunk_id,
                        samples: command::share_audio(&record.samples),
                        sub_segments: vstd::slice::slice_to_vec(record.sub_segments.as_slice()),
                        text: result.text.clone(),
                        language: result.language.clone(),
                    };
                    self.pending_commands.push_back(command);
                    assert(self@.commands =~= old(self)@.commands.push(command@));
                    self.file(
                        id,
                        ChunkRecord {
                            phase: ChunkPhase::AwaitingAlignment,
                            asr_result: Some(result),
                            ..record
                        },
                    );
                    proof {
                        let asked = old(self)@.awaiting_alignment(id, result);
                        assert(self@.in_flight =~= asked.in_flight);
                        assert(self@ =~= asked);
                        refiling_keeps_the_invariant(
                            DispatchView { commands: asked.commands, ..old(self)@ },
                            id,
                            asked.in_flight[id],
                        );
                    }
                } else {
                    self.file_transcript(id, record, result, Vec::new());
                    proof {
                        let recorded = old(self)@.transcribed(id, result, Seq::empty());
                        assert(types::word_views(Seq::empty()) =~= Seq::<WordView>::empty());
                        assert(self@.in_flight =~= recorded.in_flight);
                        assert(self@ =~= recorded);
                        refiling_keeps_the_invariant(old(self)@, id, recorded.in_flight[id]);
                    }
                    self.after_inject(buffer, open);
                }
                Ok(())
            },
        }
    }

    /// Alignment of a chunk gave a result: the chunk is finished.
    pub fn inject_alignment_result(
        &mut self,
        chunk_id: ChunkId,
        result: AlignmentResult,
        buffer: &mut SampleBuffer,
        open: Option<u64>,
    ) -> (answer: Result<(), TranscriberError>)
        requires
            old(self)@.inv(),
            old(self)@.pending_live(old(buffer)@),
            old(buffer).wf(),
        ensures
            final(self)@.inv(),
            final(self)@.pending_live(final(buffer)@),
            final(buffer).wf(),
            answer == old(self)@.alignment_answer(chunk_id.raw),
            match answer {
                Err(error) => {
                    &&& !old(self)@.recognised(chunk_id.raw)
                    &&& error == TranscriberError::UnknownChunk(chunk_id)
                    &&& final(self)@ == old(self)@
                    &&& final(buffer)@ == old(buffer)@
                },
                Ok(_) => {
                    let recorded = old(self)@.transcribed(
                        chunk_id.raw,
                        old(self)@.in_flight[chunk_id.raw].asr_result->0,
                        result@,
                    );
                    &&& old(self)@.recognised(chunk_id.raw)
                    &&& final(self)@ == old(self)@.after_alignment_result(
                        chunk_id.raw,
                        result@,
                        old(buffer)@,
                        open,
                    )
                    &&& final(buffer)@ == recorded.buffer_after_inject(old(buffer)@, open)
                },
            },
    {
        let id: u64 = chunk_id.raw;
        let asr_result: Option<AsrResult> = match self.in_flight.get(&id) {
            None => None,
            Some(record) => match &record.asr_result {
                None => None,
                Some(asr_result) => Some(asr_result.clone()),
            },
        };
        proof {
            lemma_views_remove(self.in_flight@, id);
        }
        match asr_result {
            None => Err(TranscriberError::UnknownChunk(chunk_id)),
            Some(asr_result) => {
                if let Some(record) = self.in_flight.remove(&id) {
                    assert(record@ == old(self)@.in_flight[id]);
                    self.file_transcript(id, record, asr_result, result.words);
                }
                proof {
                    let recorded = old(self)@.transcribed(id, asr_result, result@);
                    assert(self@.in_flight =~= recorded.in_flight);
                    assert(self@ =~= recorded);
                    refiling_keeps_the_invariant(old(self)@, id, recorded.in_flight[id]);
                }
                self.after_inject(buffer, open);
                Ok(())
            },
        }
    }

    /// The work on a chunk failed: the chunk is finished.
    pub fn inject_failure(
        &mut self,
        chunk_id: ChunkId,
        failure: WorkFailure,
        buffer: &mut SampleBuffer,
        open: Option<u64>,
    ) -> (answer: Result<(), TranscriberError>)
        requires
            old(self)@.inv(),
            old(self)@.pending_live(old(buffer)@),
            old(buffer).wf(),
        ensures
            final(self)@.inv(),
            final(self)@.pending_live(final(buffer)@),
            final(buffer).wf(),
            answer == old(self)@.failure_answer(chunk_id.raw),
            match answer {
                Err(error) => {
                    &&& !old(self)@.in_flight.contains_key(chunk_id.raw)
                    &&& error == TranscriberError::UnknownChunk(chunk_id)
                    &&& final(self)@ == old(self)@
                    &&& final(buffer)@ == old(buffer)@
                },
                Ok(_) => {
                    let recorded = old(self)@.failed(chunk_id.raw, failure);
                    &&& old(self)@.in_flight.contains_key(chunk_id.raw)
                    &&& final(self)@ == old(self)@.after_failure(
                        chunk_id.raw,
                        failure,
                        old(buffer)@,
                        open,
                    )
                    &&& final(buffer)@ == recorded.buffer_after_inject(old(buffer)@, open)
                },
            },
    {
        let id: u64 = chunk_id.raw;
        proof {
            lemma_views_remove(self.in_flight@, id);
        }
        match self.in_flight.remove(&id) {
            None => {
                assert(self.in_flight@ =~= old(self).in_flight@);
                Err(TranscriberError::UnknownChunk(chunk_id))
            },
            Some(record) => {
                assert(record@ == old(self)@.in_flight[id]);
                self.file(
                    id,
                    ChunkRecord { phase: ChunkPhase::FailedReady { failure }, ..record },
                );
                proof {
                    let recorded = old(self)@.failed(id, failure);
                    assert(old(self)@.in_flight.contains_key(id));
                    assert(self@.in_flight =~= recorded.in_flight);
                    assert(self@ =~= recorded);
                    refiling_keeps_the_invariant(old(self)@, id, recorded.in_flight[id]);
                }
                self.after_inject(buffer, open);
                Ok(())
            },
        }
    }

    /// File the record of a chunk.
    fn file(&mut self, id: u64, record: ChunkRecord)
        ensures
            final(self)@ == old(self)@.with_record(id, record@),
    {
        proof {
            lemma_views_insert(self.in_flight@, id, record);
        }
        self.in_flight.insert(id, record);
        assert(self@ =~= old(self)@.with_record(id, record@));
    }

    /// Build the transcript of a chunk and file it.
    fn file_transcript(
        &mut self,
        id: u64,
        record: ChunkRecord,
        result: AsrResult,
        words: Vec<Word>,
    )
        ensures
            final(self)@ == old(self)@.with_record(
                id,
                RecordView {
                    phase: PhaseView::Ready(
                        record@.transcript(result, types::word_views(words@)),
                    ),
                    asr_result: Some(result),
                    ..record@
                },
            ),
    {
        let transcript = Transcript::new(
            record.chunk_id,
            record.range,
            vstd::slice::slice_to_vec(record.sub_segments.as_slice()),
            result.language.clone(),
            result.text.clone(),
            words,
            result.avg_logprob,
            result.no_speech_prob,
            result.temperature,
        );
        self.file(
            id,
            ChunkRecord {
                phase: ChunkPhase::Ready { transcript },
                asr_result: Some(result),
                ..record
            },
        );
    }

    /// Take the oldest command; one that was handed back comes first.
    pub fn poll_command(&mut self) -> (command: Option<Command>)
        ensures
            final(self)@ == old(self)@.after_poll_command(),
            command is Some <==> old(self)@.next_command() is Some,
            command matches Some(c) ==> Some(c@) == old(self)@.next_command(),
    {
        match self.parked_command.take() {
            Some(command) => Some(command),
            None => {
                let command: Option<Command> = self.pending_commands.pop_front();
                assert(self@ =~= old(self)@.after_poll_command());
                command
            },
        }
    }

    /// Take the oldest event.
    pub fn poll_event(&mut self) -> (event: Option<Event>)
        ensures
            final(self)@ == old(self)@.after_poll_event(),
            event is Some <==> old(self)@.events.len() > 0,
            event matches Some(e) ==> e@ == old(self)@.events[0],
    {
        let event: Option<Event> = self.pending_events.pop_front();
        assert(self@ =~= old(self)@.after_poll_event());
        event
    }

    /// Hand a command back; the next poll gives it again.
    pub fn unpoll_command(&mut self, command: Command)
        requires
            old(self)@.parked is None,
        ensures
            final(self)@ == old(self)@.after_unpoll(command@),
    {
        self.parked_command = Some(command);
    }

    /// Whether recognition of the chunk is awaited.
    pub fn awaits_recognition(&self, chunk_id: ChunkId) -> (awaited: bool)
        ensures
            awaited == self@.unrecognised(chunk_id.raw),
    {
        let id: u64 = chunk_id.raw;
        match self.in_flight.get(&id) {
            None => false,
            Some(record) => record.asr_result.is_none(),
        }
    }

    /// Recognise the chunks that enter flight from now on in this language.
    pub fn set_language_hint(&mut self, hint: Lang)
        ensures
            final(self)@ == old(self)@.with_language_hint(hint),
    {
        self.asr_params.language_hint = Some(hint);
    }

    /// No command, event or chunk is left.
    pub fn is_idle(&self) -> (idle: bool)
        ensures
            idle == self@.idle(),
    {
        proof {
            lemma_views_dom(self.in_flight@);
            assert(self.in_flight@.is_empty() <==> self@.in_flight.is_empty());
        }
        self.parked_command.is_none() && self.pending_commands.len() == 0
            && self.pending_events.len() == 0 && self.in_flight.is_empty()
            && self.cut_pending.len() == 0
    }
}

} // verus!
