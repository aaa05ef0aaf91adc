//! The state machine as its driver sees it.
//!
//! The driver pushes audio and speech segments, polls commands, runs them
//! wherever it likes, injects what they gave, and polls events.

use vstd::prelude::*;

use crate::binary32::Binary32;
use crate::lang::Lang;
use crate::machine::buffer::{SampleBuffer, SampleBufferView};
use crate::machine::command::{AlignmentResult, AsrParams, AsrResult, Command, CommandView};
use crate::machine::cut;
use crate::machine::cut::{ChunkView, Cut, CutView, MergedChunk, SampleRange};
use crate::machine::dispatch;
use crate::machine::dispatch::{Dispatch, DispatchView, PhaseView};
use crate::machine::event::{Event, EventView};
use crate::machine::language;
use crate::text;
use crate::time::{Timebase, Timestamp};
use crate::types::{ChunkId, PushKind, TranscriberError, VadSegment, WordView, WorkFailure};

verus! {

/// How the language of a chunk is chosen.
#[derive(Debug)]
pub enum LanguagePolicy {
    /// Each chunk detects its own.
    Auto,
    /// The given language, never detected.
    Lock {
        /// The language.
        hint: Lang,
    },
    /// Detected on the first so many chunks with non-empty text, then locked to
    /// the most frequent of the detected ones; with zero it is never locked.
    AutoLockAfter(usize),
}

impl Default for LanguagePolicy {
    fn default() -> (policy: LanguagePolicy)
        ensures
            policy == LanguagePolicy::AutoLockAfter(1),
    {
        LanguagePolicy::AutoLockAfter(1)
    }
}

impl Clone for LanguagePolicy {
    fn clone(&self) -> (copy: LanguagePolicy)
        ensures
            copy == *self,
    {
        match self {
            LanguagePolicy::Auto => LanguagePolicy::Auto,
            LanguagePolicy::Lock { hint } => LanguagePolicy::Lock { hint: hint.clone() },
            LanguagePolicy::AutoLockAfter(n) => LanguagePolicy::AutoLockAfter(*n),
        }
    }
}

/// Configuration of the state machine.
#[derive(Debug)]
pub struct TranscriberConfig {
    /// Longest span of a chunk, in analysis samples.
    pub chunk_size_samples: u64,
    /// Number of live samples above which a push reports backpressure.
    pub buffer_cap_samples: usize,
    /// Longest gap that is filled with silence, in analysis samples.
    pub gap_tolerance_samples: u64,
    /// Whether recognised text is aligned.
    pub word_alignment: bool,
    /// Most chunks in flight.
    pub max_in_flight: usize,
    /// Recognition parameters of every chunk.
    pub asr_params: AsrParams,
    /// How the language of a chunk is chosen.
    pub language_policy: LanguagePolicy,
}

impl TranscriberConfig {
    /// Chunks of 30 s, a buffer of 60 s, gaps up to 200 ms, no alignment, six
    /// chunks in flight.
    pub open spec fn defaults() -> TranscriberConfig {
        TranscriberConfig {
            chunk_size_samples: 480_000,
            buffer_cap_samples: 960_000,
            gap_tolerance_samples: 3_200,
            word_alignment: false,
            max_in_flight: 6,
            asr_params: AsrParams::defaults(),
            language_policy: LanguagePolicy::AutoLockAfter(1),
        }
    }
}

impl Default for TranscriberConfig {
    fn default() -> (config: TranscriberConfig)
        ensures
            config == TranscriberConfig::defaults(),
    {
        TranscriberConfig {
            chunk_size_samples: 30 * 16_000,
            buffer_cap_samples: 60 * 16_000,
            gap_tolerance_samples: 200 * 16,
            word_alignment: false,
            max_in_flight: 6,
            asr_params: AsrParams::default(),
            language_policy: LanguagePolicy::default(),
        }
    }
}

impl Clone for TranscriberConfig {
    fn clone(&self) -> (copy: TranscriberConfig)
        ensures
            copy == *self,
    {
        TranscriberConfig {
            chunk_size_samples: self.chunk_size_samples,
            buffer_cap_samples: self.buffer_cap_samples,
            gap_tolerance_samples: self.gap_tolerance_samples,
            word_alignment: self.word_alignment,
            max_in_flight: self.max_in_flight,
            asr_params: self.asr_params.clone(),
            language_policy: self.language_policy.clone(),
        }
    }
}

/// The state machine.
pub struct Transcriber {
    config: TranscriberConfig,
    buffer: SampleBuffer,
    cut: Cut,
    dispatch: Dispatch,
    next_chunk_id: u64,
    eof_signaled: bool,
    detected: Vec<Lang>,
}

/// What a [`Transcriber`] holds.
#[verifier::ext_equal]
pub struct TranscriberView {
    /// Its configuration.
    pub config: TranscriberConfig,
    /// Live audio.
    pub buffer: SampleBufferView,
    /// The chunk under construction.
    pub cut: CutView,
    /// Chunks waiting and in flight, commands and events.
    pub dispatch: DispatchView,
    /// Identity of the next chunk; the number of chunks cut so far.
    pub next_chunk_id: u64,
    /// The end of the stream was signalled.
    pub eof: bool,
    /// The languages detected so far, while they count toward a lock.
    pub detected: Seq<Lang>,
}

/// Chunks were cut, in order, the first of them with identity `first`.
pub open spec fn after_emits(
    d: DispatchView,
    first: int,
    chunks: Seq<ChunkView>,
    buffer: SampleBufferView,
) -> DispatchView
    decreases chunks.len(),
{
    if chunks.len() == 0 {
        d
    } else {
        after_emits(d, first, chunks.drop_last(), buffer).after_emit(
            (first + chunks.len() - 1) as u64,
            chunks.last(),
            buffer,
        )
    }
}

impl TranscriberView {
    /// The parts are consistent, and every chunk cut so far is accounted for:
    /// those before `dispatch.next_emit` had their event queued, the others are
    /// in flight or waiting.
    pub open spec fn inv(self) -> bool {
        &&& self.dispatch.inv()
        &&& self.dispatch.settled()
        &&& !self.dispatch.draining
        &&& self.dispatch.accounts_for(self.next_chunk_id)
        &&& self.dispatch.pending_live(self.buffer)
        &&& self.dispatch.max_in_flight == self.config.max_in_flight
        &&& self.dispatch.word_alignment == self.config.word_alignment
        &&& self.cut.inv()
        &&& self.cut.chunk_size == self.config.chunk_size_samples
        &&& self.cut.end <= i64::MAX
        &&& self.buffer.cap == self.config.buffer_cap_samples
        &&& self.buffer.output_tb is Some ==> self.buffer.pts_fits(self.buffer.appended)
            && self.buffer.pts_fits(0)
        &&& !self.eof ==> self.open_audio_kept()
        &&& self.params_follow_policy()
    }

    /// The state of a machine that nothing was pushed to.
    pub open spec fn fresh(config: TranscriberConfig) -> TranscriberView {
        TranscriberView {
            config,
            buffer: SampleBufferView {
                output_tb: None,
                anchor: 0,
                appended: 0,
                samples: Seq::empty(),
                cap: config.buffer_cap_samples as int,
                gap_tolerance: config.gap_tolerance_samples as int,
            },
            cut: CutView {
                chunk_size: config.chunk_size_samples as int,
                next_vad_seq: 0,
                start: None,
                end: 0,
                subs: Seq::empty(),
            },
            dispatch: DispatchView {
                pending: Seq::empty(),
                in_flight: Map::empty(),
                next_emit: 0,
                commands: Seq::empty(),
                events: Seq::empty(),
                word_alignment: config.word_alignment,
                max_in_flight: config.max_in_flight as int,
                asr_params: AsrParams {
                    language_hint: match config.language_policy {
                        LanguagePolicy::Lock { hint } => Some(hint),
                        _ => config.asr_params.language_hint,
                    },
                    ..config.asr_params
                },
                draining: false,
                parked: None,
            },
            next_chunk_id: 0,
            eof: false,
            detected: Seq::empty(),
        }
    }

    /// No audio of the chunk under construction was dropped. Before the first
    /// one nothing was.
    pub open spec fn open_audio_kept(self) -> bool {
        match self.cut.start {
            Some(start) => self.buffer.dropped() <= start,
            None => self.next_chunk_id == 0 && self.buffer.dropped() == 0,
        }
    }

    /// Detected languages still count toward a lock.
    pub open spec fn detecting(self) -> bool {
        self.config.language_policy matches LanguagePolicy::AutoLockAfter(n) && self.detected.len()
            < n
    }

    /// The language that chunks entering flight are recognised in: the locked
    /// one, if there is one, else the configured hint.
    pub open spec fn hint(self) -> Option<Lang> {
        match self.config.language_policy {
            LanguagePolicy::Auto => self.config.asr_params.language_hint,
            LanguagePolicy::Lock { hint } => Some(hint),
            LanguagePolicy::AutoLockAfter(n) => if 0 < n && n <= self.detected.len() {
                Some(language::most_frequent(self.detected))
            } else {
                self.config.asr_params.language_hint
            },
        }
    }

    /// Chunks are recognised with the configured parameters, in the language
    /// that the policy names.
    pub open spec fn params_follow_policy(self) -> bool {
        self.dispatch.asr_params == (AsrParams {
            language_hint: self.hint(),
            ..self.config.asr_params
        })
    }

    /// The result counts toward a lock: it is the first one of its chunk and
    /// has text.
    pub open spec fn tells_language(self, id: u64, result: AsrResult) -> bool {
        &&& self.detecting()
        &&& self.dispatch.unrecognised(id)
        &&& text::smol_str_chars(result.text).len() > 0
    }

    /// The state after the language of a result was taken note of. With the
    /// last one that counts, the most frequent language is locked.
    pub open spec fn after_detection(self, id: u64, result: AsrResult) -> TranscriberView {
        if self.tells_language(id, result) {
            let told = TranscriberView { detected: self.detected.push(result.language), ..self };
            if told.detecting() {
                told
            } else {
                TranscriberView {
                    dispatch: told.dispatch.with_language_hint(
                        language::most_frequent(told.detected),
                    ),
                    ..told
                }
            }
        } else {
            self
        }
    }

    /// The state after chunks were cut.
    pub open spec fn with_chunks(self, cut: CutView, chunks: Seq<ChunkView>) -> TranscriberView {
        TranscriberView {
            cut,
            dispatch: after_emits(
                self.dispatch,
                self.next_chunk_id as int,
                chunks,
                self.buffer,
            ),
            next_chunk_id: (self.next_chunk_id + chunks.len()) as u64,
            ..self
        }
    }

    /// The stream has a timebase, the audio of the chunks has come, and there
    /// are identities left for them.
    pub open spec fn can_cut(self, chunks: Seq<ChunkView>) -> bool {
        &&& chunks.len() > 0 ==> self.buffer.output_tb is Some
        &&& self.next_chunk_id + chunks.len() < u64::MAX
        &&& forall|i: int|
            0 <= i < chunks.len() ==> (#[trigger] chunks[i]).range.end <= self.buffer.appended
    }

    /// The state after a segment was pushed.
    pub open spec fn after_push_segment(self, seg: VadSegment) -> TranscriberView {
        self.with_chunks(self.cut.after_segment(seg), self.cut.emitted_by_segment(seg))
    }

    /// The state after the end of the stream was signalled.
    pub open spec fn after_eof(self) -> TranscriberView {
        TranscriberView {
            eof: true,
            ..self.with_chunks(self.cut.after_flush(), self.cut.emitted_by_flush())
        }
    }

    /// The state after the outcome of a chunk was recorded as `recorded`.
    pub open spec fn after_record(self, recorded: DispatchView) -> TranscriberView {
        TranscriberView {
            dispatch: recorded.after_inject(self.buffer, self.cut.start),
            buffer: recorded.buffer_after_inject(self.buffer, self.cut.start),
            ..self
        }
    }

    /// The state after a packet was pushed, and the answer to it.
    pub open spec fn pushed_samples(
        self,
        starts_at: Timestamp,
        samples: Seq<Binary32>,
    ) -> (TranscriberView, Result<(), TranscriberError>) {
        if self.eof {
            (self, Err(TranscriberError::AfterEof))
        } else {
            (
                TranscriberView { buffer: self.buffer.after_append(starts_at, samples), ..self },
                self.buffer.append_result(starts_at, samples),
            )
        }
    }

    /// The state after a segment was pushed, and the answer to it.
    pub open spec fn pushed_segment(self, seg: VadSegment) -> (
        TranscriberView,
        Result<(), TranscriberError>,
    ) {
        if self.eof {
            (self, Err(TranscriberError::AfterEof))
        } else if seg.start < self.cut.end {
            (
                self,
                Err(
                    TranscriberError::PtsRegression {
                        kind: PushKind::VadSegment,
                        advance: (seg.start - self.cut.end) as i64,
                    },
                ),
            )
        } else {
            (self.after_push_segment(seg), Ok(()))
        }
    }

    /// The state after the end of the stream was signalled, and the answer to
    /// it.
    pub open spec fn signalled_eof(self) -> (TranscriberView, Result<(), TranscriberError>) {
        if self.eof {
            (self, Err(TranscriberError::AfterEof))
        } else {
            (self.after_eof(), Ok(()))
        }
    }

    /// The state after recognition of a chunk in flight gave a result.
    pub open spec fn after_asr_result(self, id: u64, result: AsrResult) -> TranscriberView {
        let told = self.after_detection(id, result);
        TranscriberView {
            dispatch: told.dispatch.after_asr_result(id, result, told.buffer, told.cut.start),
            buffer: told.dispatch.buffer_after_asr_result(
                id,
                result,
                told.buffer,
                told.cut.start,
            ),
            ..told
        }
    }

    /// The state after alignment of a recognised chunk gave its words.
    pub open spec fn after_alignment_result(
        self,
        id: u64,
        words: Seq<WordView>,
    ) -> TranscriberView {
        self.after_record(
            self.dispatch.transcribed(id, self.dispatch.in_flight[id].asr_result->0, words),
        )
    }

    /// The state after the work on a chunk in flight failed.
    pub open spec fn after_failure(self, id: u64, failure: WorkFailure) -> TranscriberView {
        self.after_record(self.dispatch.failed(id, failure))
    }

    /// So many more samples fit under the buffer's cap.
    pub open spec fn accepts(self, n: int) -> bool {
        self.buffer.samples.len() + n <= self.config.buffer_cap_samples
    }

    /// Nothing is buffered, queued, waiting or in flight.
    pub open spec fn idle(self) -> bool {
        self.dispatch.idle() && self.buffer.samples.len() == 0
    }
}

impl View for Transcriber {
    type V = TranscriberView;

    closed spec fn view(&self) -> TranscriberView {
        TranscriberView {
            config: self.config,
            buffer: self.buffer@,
            cut: self.cut@,
            dispatch: self.dispatch@,
            next_chunk_id: self.next_chunk_id,
            eof: self.eof_signaled,
            detected: self.detected@,
        }
    }
}

impl Transcriber {
    /// The state is consistent.
    pub closed spec fn wf(self) -> bool {
        &&& self.buffer.wf()
        &&& self@.inv()
    }

    /// A consistent state satisfies the invariant of its view, so that what is
    /// proved of such views holds of it.
    pub proof fn lemma_wf(self)
        requires
            self.wf(),
        ensures
            self@.inv(),
            0 <= self@.buffer.samples.len() <= self@.buffer.appended <= i64::MAX,
    {
        self.buffer.lemma_appended_fits();
    }

    /// Nothing pushed yet.
    pub fn new(config: TranscriberConfig) -> (transcriber: Transcriber)
        ensures
            transcriber.wf(),
            transcriber@ == TranscriberView::fresh(config),
    {
        let buffer = SampleBuffer::new(config.buffer_cap_samples, config.gap_tolerance_samples);
        let cut = Cut::new(config.chunk_size_samples);
        let mut asr_params: AsrParams = config.asr_params.clone();
        if let LanguagePolicy::Lock { hint } = &config.language_policy {
            asr_params.language_hint = Some(hint.clone());
        }
        let dispatch = Dispatch::new(asr_params, config.word_alignment, config.max_in_flight);
        Transcriber {
            config,
            buffer,
            cut,
            dispatch,
            next_chunk_id: 0,
            eof_signaled: false,
            detected: Vec::new(),
        }
    }

    /// Take the oldest command; one that was handed back comes first.
    pub fn poll_command(&mut self) -> (command: Option<Command>)
        requires
            old(self).wf(),
        ensures
            final(self).wf(),
            final(self)@ == (TranscriberView {
                dispatch: old(self)@.dispatch.after_poll_command(),
                ..old(self)@
            }),
            command is Some <==> old(self)@.dispatch.next_command() is Some,
            command matches Some(c) ==> Some(c@) == old(self)@.dispatch.next_command(),
    {
        let command: Option<Command> = self.dispatch.poll_command();
        proof {
            lemma_queues_are_free(old(self)@, self@);
        }
        command
    }

    /// Take the oldest event.
    pub fn poll_event(&mut self) -> (event: Option<Event>)
        requires
            old(self).wf(),
        ensures
            final(self).wf(),
            final(self)@ == (TranscriberView {
                dispatch: old(self)@.dispatch.after_poll_event(),
                ..old(self)@
            }),
            event is Some <==> old(self)@.dispatch.events.len() > 0,
            event matches Some(e) ==> {
                &&& e@ == old(self)@.dispatch.events[0]
                &&& e@.chunk() == old(self)@.dispatch.next_polled()
                &&& final(self)@.dispatch.next_polled() == old(self)@.dispatch.next_polled() + 1
            },
            event is None ==> final(self)@.dispatch.next_polled()
                == old(self)@.dispatch.next_polled(),
    {
        let event: Option<Event> = self.dispatch.poll_event();
        proof {
            let d = old(self)@.dispatch;
            let e = self@.dispatch;
            if d.events.len() > 0 {
                assert forall|i: int| 0 <= i < e.events.len() implies (
                #[trigger] e.events[i]).chunk() == e.next_polled() + i by {
                    assert(e.events[i] == d.events[i + 1]);
                }
            }
            lemma_queues_are_free(old(self)@, self@);
        }
        event
    }

    /// Hand back a command that was polled; the next poll gives it again.
    pub fn unpoll_command(&mut self, command: Command)
        requires
            old(self).wf(),
            old(self)@.dispatch.parked is None,
        ensures
            final(self).wf(),
            final(self)@ == (TranscriberView {
                dispatch: old(self)@.dispatch.after_unpoll(command@),
                ..old(self)@
            }),
    {
        self.dispatch.unpoll_command(command);
        proof {
            lemma_queues_are_free(old(self)@, self@);
        }
    }

    /// Nothing is buffered, queued, waiting or in flight.
    pub fn is_idle(&self) -> (idle: bool)
        ensures
            idle == self@.idle(),
    {
        self.dispatch.is_idle() && self.buffer.buffered_samples() == 0
    }

    /// Number of live samples.
    pub fn buffered_samples(&self) -> (buffered: usize)
        ensures
            buffered == self@.buffer.samples.len(),
    {
        self.buffer.buffered_samples()
    }

    /// Timebase of the first packet; `None` until it came.
    pub fn output_timebase(&self) -> (tb: Option<Timebase>)
        ensures
            tb == self@.buffer.output_tb,
    {
        self.buffer.output_timebase()
    }

    /// Timestamp at which the next contiguous packet starts; `None` until the
    /// first packet came.
    pub fn next_expected_starts_at(&self) -> (next: Option<Timestamp>)
        requires
            self.wf(),
        ensures
            next == self@.buffer.next_expected(),
    {
        self.buffer.next_expected_starts_at()
    }

    /// Whether `samples_len` more samples fit under the buffer's cap. Speech
    /// segments take no room.
    pub fn would_accept(&self, samples_len: usize, _vad_count: usize) -> (accepted: bool)
        requires
            self.wf(),
            self@.buffer.samples.len() + samples_len <= usize::MAX,
        ensures
            accepted == self@.accepts(samples_len as int),
    {
        self.buffered_samples() + samples_len <= self.config.buffer_cap_samples
    }
}

impl Transcriber {
    /// Push a packet of audio whose first sample has the timestamp
    /// `starts_at`.
    pub fn push_samples(&mut self, starts_at: Timestamp, samples: &[Binary32]) -> (result: Result<
        (),
        TranscriberError,
    >)
        requires
            old(self).wf(),
            !old(self)@.eof ==> {
                &&& old(self)@.buffer.append_in_range(starts_at, samples@)
                &&& old(self)@.buffer.takes_up(starts_at) ==> {
                    let after = old(self)@.buffer.after_append(starts_at, samples@);
                    after.pts_fits(after.appended)
                }
            },
        ensures
            final(self).wf(),
            (final(self)@, result) == old(self)@.pushed_samples(starts_at, samples@),
    {
        if self.eof_signaled {
            return Err(TranscriberError::AfterEof);
        }
        proof {
            self.buffer.lemma_appended_fits();
            lemma_after_push_samples(self@, starts_at, samples@);
        }
        self.buffer.append(starts_at, samples)
    }

    /// Push a speech segment. The chunks that it completes are dispatched, so
    /// their audio must have come; that of the chunk under construction may
    /// still be to come.
    pub fn push_vad_segment(&mut self, seg: VadSegment) -> (result: Result<(), TranscriberError>)
        requires
            old(self).wf(),
            !old(self)@.eof && old(self)@.cut.end <= seg.start ==> {
                &&& seg.wf()
                &&& seg.end <= i64::MAX
                &&& old(self)@.cut.chunk_size > 0
                &&& old(self)@.cut.numbers_fit(seg)
                &&& old(self)@.can_cut(old(self)@.cut.emitted_by_segment(seg))
            },
        ensures
            final(self).wf(),
            (final(self)@, result) == old(self)@.pushed_segment(seg),
    {
        if self.eof_signaled {
            return Err(TranscriberError::AfterEof);
        }
        proof {
            self.buffer.lemma_appended_fits();
        }
        let high_water: u64 = self.cut.high_water();
        if seg.start < high_water {
            return Err(
                TranscriberError::PtsRegression {
                    kind: PushKind::VadSegment,
                    advance: seg.start as i64 - high_water as i64,
                },
            );
        }
        proof {
            lemma_segment_chunks_extractable(self.buffer, self.cut@, seg);
            cut::completed_chunks_are_filled(self.cut@, seg);
        }
        let emitted: Vec<MergedChunk> = self.cut.push_segment(seg);
        assert forall|i: int| 0 <= i < emitted@.len() implies dispatch::extractable(
            self@.buffer,
            (#[trigger] emitted@[i])@,
        ) by {
            assert(cut::chunk_views(emitted@)[i] == emitted@[i]@);
        }
        self.emit(emitted);
        Ok(())
    }

    /// The stream has ended: dispatch the trailing chunk, if there is one.
    pub fn signal_eof(&mut self) -> (result: Result<(), TranscriberError>)
        requires
            old(self).wf(),
            !old(self)@.eof ==> old(self)@.can_cut(old(self)@.cut.emitted_by_flush()),
        ensures
            final(self).wf(),
            (final(self)@, result) == old(self)@.signalled_eof(),
    {
        if self.eof_signaled {
            return Err(TranscriberError::AfterEof);
        }
        proof {
            self.buffer.lemma_appended_fits();
            if self.cut@.start is Some {
                assert(self.cut@.emitted_by_flush()[0] == self.cut@.current());
            }
            lemma_trailing_chunk_extractable(self.buffer, self.cut@);
        }
        let mut emitted: Vec<MergedChunk> = Vec::new();
        if let Some(chunk) = self.cut.flush() {
            emitted.push(chunk);
        }
        assert(cut::chunk_views(emitted@) =~= old(self)@.cut.emitted_by_flush());
        self.emit(emitted);
        self.eof_signaled = true;
        Ok(())
    }

    /// Recognition of a chunk gave a result. Its language may complete a lock,
    /// which the chunks that enter flight from now on are bound by.
    pub fn inject_asr_result(&mut self, chunk_id: ChunkId, result: AsrResult) -> (answer: Result<
        (),
        TranscriberError,
    >)
        requires
            old(self).wf(),
        ensures
            final(self).wf(),
            answer == old(self)@.dispatch.asr_answer(chunk_id.raw),
            final(self)@ == if answer is Ok {
                old(self)@.after_asr_result(chunk_id.raw, result)
            } else {
                old(self)@
            },
    {
        self.take_note_of(chunk_id, &result);
        proof {
            self.buffer.lemma_appended_fits();
            if self@.dispatch.in_flight.contains_key(chunk_id.raw) {
                let asked = self@.dispatch.awaiting_alignment(chunk_id.raw, result);
                lemma_after_refile(self@, chunk_id.raw, asked);
                let recorded = self@.dispatch.transcribed(chunk_id.raw, result, Seq::empty());
                lemma_after_record(self@, chunk_id.raw, recorded);
            }
        }
        let open: Option<u64> = self.open_start();
        self.dispatch.inject_asr_result(chunk_id, result, &mut self.buffer, open)
    }

    /// Alignment of a chunk gave a result.
    pub fn inject_alignment_result(&mut self, chunk_id: ChunkId, result: AlignmentResult) -> (answer:
        Result<(), TranscriberError>)
        requires
            old(self).wf(),
        ensures
            final(self).wf(),
            answer == old(self)@.dispatch.alignment_answer(chunk_id.raw),
            final(self)@ == if answer is Ok {
                old(self)@.after_alignment_result(chunk_id.raw, result@)
            } else {
                old(self)@
            },
    {
        proof {
            self.buffer.lemma_appended_fits();
            if self@.dispatch.recognised(chunk_id.raw) {
                let recorded = self@.dispatch.transcribed(
                    chunk_id.raw,
                    self@.dispatch.in_flight[chunk_id.raw].asr_result->0,
                    result@,
                );
                lemma_after_record(self@, chunk_id.raw, recorded);
            }
        }
        let open: Option<u64> = self.open_start();
        self.dispatch.inject_alignment_result(chunk_id, result, &mut self.buffer, open)
    }

    /// The work on a chunk failed.
    pub fn inject_failure(&mut self, chunk_id: ChunkId, failure: WorkFailure) -> (answer: Result<
        (),
        TranscriberError,
    >)
        requires
            old(self).wf(),
        ensures
            final(self).wf(),
            answer == old(self)@.dispatch.failure_answer(chunk_id.raw),
            final(self)@ == if answer is Ok {
                old(self)@.after_failure(chunk_id.raw, failure)
            } else {
                old(self)@
            },
    {
        proof {
            self.buffer.lemma_appended_fits();
            if self@.dispatch.in_flight.contains_key(chunk_id.raw) {
                let recorded = self@.dispatch.failed(chunk_id.raw, failure);
                lemma_after_record(self@, chunk_id.raw, recorded);
            }
        }
        let open: Option<u64> = self.open_start();
        self.dispatch.inject_failure(chunk_id, failure, &mut self.buffer, open)
    }

    /// Stream positions of the live samples.
    pub fn live_range(&self) -> (range: SampleRange)
        requires
            self.wf(),
        ensures
            range.start == self@.buffer.dropped(),
            range.end == self@.buffer.appended,
    {
        proof {
            self.buffer.lemma_appended_fits();
        }
        let end: u64 = self.buffer.absolute_sample_offset();
        SampleRange::new(end - self.buffer.buffered_samples() as u64, end)
    }

    /// Stream positions of the chunk under construction; `None` if there is
    /// none.
    pub fn open_range(&self) -> (open: Option<SampleRange>)
        ensures
            open == match self@.cut.start {
                Some(start) => Some(SampleRange { start, end: self@.cut.end }),
                None => None,
            },
    {
        self.cut.open_range()
    }

    /// Number of chunks cut so far.
    pub fn chunks_cut(&self) -> (n: u64)
        ensures
            n == self@.next_chunk_id,
    {
        self.next_chunk_id
    }

    /// Where the chunk under construction starts.
    fn open_start(&self) -> (start: Option<u64>)
        ensures
            start == self@.cut.start,
    {
        match self.cut.open_range() {
            Some(range) => Some(range.start),
            None => None,
        }
    }

    /// Take note of the language of a result, and lock one if that was the last
    /// that counts.
    fn take_note_of(&mut self, chunk_id: ChunkId, result: &AsrResult)
        requires
            old(self).wf(),
        ensures
            final(self).wf(),
            final(self)@ == old(self)@.after_detection(chunk_id.raw, *result),
    {
        let quota: usize = match &self.config.language_policy {
            LanguagePolicy::AutoLockAfter(n) => *n,
            _ => 0,
        };
        if self.detected.len() < quota && self.dispatch.awaits_recognition(chunk_id)
            && !result.text.as_str().is_empty() {
            self.detected.push(result.language.clone());
            if self.detected.len() == quota {
                self.dispatch.set_language_hint(
                    language::most_frequent_language(self.detected.as_slice()),
                );
            }
        }
        proof {
            lemma_after_detection(old(self)@, chunk_id.raw, *result);
        }
    }

    /// Give identities to the chunks and dispatch them, in order.
    fn emit(&mut self, chunks: Vec<MergedChunk>)
        requires
            old(self).buffer.wf(),
            old(self)@.dispatch.inv(),
            old(self)@.dispatch.settled(),
            old(self)@.dispatch.accounts_for(old(self)@.next_chunk_id),
            old(self)@.dispatch.pending_live(old(self)@.buffer),
            old(self)@.next_chunk_id + chunks@.len() < u64::MAX,
            forall|i: int|
                0 <= i < chunks@.len() ==> dispatch::extractable(
                    old(self)@.buffer,
                    (#[trigger] chunks@[i])@,
                ),
        ensures
            final(self).buffer == old(self).buffer,
            final(self)@ == old(self)@.with_chunks(old(self)@.cut, cut::chunk_views(chunks@)),
            final(self)@.dispatch.inv(),
            final(self)@.dispatch.settled(),
            final(self)@.dispatch.accounts_for(final(self)@.next_chunk_id),
            final(self)@.dispatch.pending_live(final(self)@.buffer),
            final(self)@.dispatch.draining == old(self)@.dispatch.draining,
            final(self)@.dispatch.max_in_flight == old(self)@.dispatch.max_in_flight,
            final(self)@.dispatch.asr_params == old(self)@.dispatch.asr_params,
            final(self)@.dispatch.word_alignment == old(self)@.dispatch.word_alignment,
    {
        let ghost all = chunks@;
        let ghost views = cut::chunk_views(all);
        let mut rest: Vec<MergedChunk> = chunks;
        let ghost mut n: int = 0;
        proof {
            assert(all.subrange(0, all.len() as int) =~= all);
            assert(after_emits(
                self@.dispatch,
                self@.next_chunk_id as int,
                views.take(0),
                self@.buffer,
            ) == self@.dispatch);
        }
        while rest.len() > 0
            invariant
                0 <= n <= all.len(),
                all == chunks@,
                views == cut::chunk_views(all),
                rest@ == all.subrange(n, all.len() as int),
                self.buffer == old(self).buffer,
                self.buffer.wf(),
                self@ == old(self)@.with_chunks(old(self)@.cut, views.take(n)),
                self@.dispatch.inv(),
                self@.dispatch.settled(),
                self@.dispatch.accounts_for(self@.next_chunk_id),
                self@.dispatch.pending_live(self@.buffer),
                self@.dispatch.draining == old(self)@.dispatch.draining,
                self@.dispatch.max_in_flight == old(self)@.dispatch.max_in_flight,
                self@.dispatch.asr_params == old(self)@.dispatch.asr_params,
                self@.dispatch.word_alignment == old(self)@.dispatch.word_alignment,
                old(self)@.next_chunk_id + all.len() < u64::MAX,
                forall|i: int|
                    0 <= i < all.len() ==> dispatch::extractable(
                        old(self)@.buffer,
                        (#[trigger] all[i])@,
                    ),
            decreases rest@.len(),
        {
            let ghost before = *self;
            let chunk: MergedChunk = rest.remove(0);
            let chunk_id = ChunkId::from_raw(self.next_chunk_id);
            proof {
                assert(chunk == all[n]);
                assert(rest@ =~= all.subrange(n + 1, all.len() as int));
                assert(views.take(n + 1).drop_last() =~= views.take(n));
                assert(views.take(n + 1).last() == chunk@);
                dispatch::cut_chunks_are_accounted_for(
                    self@.dispatch,
                    self@.next_chunk_id,
                    chunk@,
                    self@.buffer,
                );
                lemma_pending_live_after_emit(
                    self@.dispatch,
                    self@.next_chunk_id,
                    chunk@,
                    self@.buffer,
                );
            }
            self.dispatch.on_emit(chunk, chunk_id, &self.buffer);
            self.next_chunk_id = self.next_chunk_id + 1;
            proof {
                n = n + 1;
                assert(self@ =~= old(self)@.with_chunks(old(self)@.cut, views.take(n)));
            }
        }
        assert(views.take(n) =~= views);
    }
}

proof fn lemma_after_detection(v: TranscriberView, id: u64, result: AsrResult)
    requires
        v.inv(),
    ensures
        v.after_detection(id, result).inv(),
{
    let w = v.after_detection(id, result);
    lemma_same_ids(v.dispatch, w.dispatch, v.next_chunk_id);
    assert forall|i: int| 0 <= i < w.dispatch.pending.len() implies dispatch::extractable(
        w.buffer,
        (#[trigger] w.dispatch.pending[i]).1,
    ) by {
        assert(dispatch::extractable(v.buffer, v.dispatch.pending[i].1));
    }
}

proof fn lemma_pending_live_after_emit(
    d: DispatchView,
    id: u64,
    chunk: ChunkView,
    buffer: SampleBufferView,
)
    requires
        d.pending_live(buffer),
        dispatch::extractable(buffer, chunk),
    ensures
        d.after_emit(id, chunk, buffer).pending_live(buffer),
{
    let e = d.after_emit(id, chunk, buffer);
    assert forall|i: int| 0 <= i < e.pending.len() implies dispatch::extractable(
        buffer,
        (#[trigger] e.pending[i]).1,
    ) by {
        if i < d.pending.len() {
            assert(e.pending[i] == d.pending[i]);
        }
    }
}

proof fn lemma_after_push_samples(
    v: TranscriberView,
    starts_at: Timestamp,
    samples: Seq<Binary32>,
)
    requires
        v.inv(),
        v.buffer.append_in_range(starts_at, samples),
        v.buffer.takes_up(starts_at) ==> {
            let after = v.buffer.after_append(starts_at, samples);
            after.pts_fits(after.appended)
        },
        v.buffer.output_tb matches Some(tb) ==> tb.wf() && tb.num > 0,
        v.buffer.output_tb is None ==> v.buffer.appended == 0,
    ensures
        (TranscriberView {
            buffer: v.buffer.after_append(starts_at, samples),
            ..v
        }).inv(),
{
    let after = v.buffer.after_append(starts_at, samples);
    if v.buffer.takes_up(starts_at) {
        let tb = v.buffer.anchored(starts_at).output_tb->0;
        crate::time::rescaling_keeps_zero(tb, crate::time::analysis_timebase());
        crate::time::rescaling_keeps_zero(crate::time::analysis_timebase(), tb);
        crate::time::rescaling_is_monotone(
            0,
            v.buffer.advance(starts_at),
            tb,
            crate::time::analysis_timebase(),
        );
        assert(v.buffer.gap(starts_at) >= 0);
        assert(after.dropped() == v.buffer.dropped());
        assert forall|i: int| 0 <= i < v.dispatch.pending.len() implies dispatch::extractable(
            after,
            (#[trigger] v.dispatch.pending[i]).1,
        ) by {
            assert(dispatch::extractable(v.buffer, v.dispatch.pending[i].1));
        }
    }
}

proof fn lemma_segment_chunks_extractable(buffer: SampleBuffer, v: CutView, seg: VadSegment)
    requires
        buffer.wf(),
        v.inv(),
        v.chunk_size > 0,
        v.follows(seg),
        v.emitted_by_segment(seg).len() > 0 ==> buffer@.output_tb is Some,
        buffer@.output_tb is Some ==> buffer@.pts_fits(buffer@.appended) && buffer@.pts_fits(0),
        forall|i: int|
            0 <= i < v.emitted_by_segment(seg).len() ==> (
            #[trigger] v.emitted_by_segment(seg)[i]).range.end <= buffer@.appended,
        buffer@.dropped() <= match v.start {
            Some(start) => start,
            None => seg.start,
        },
    ensures
        forall|i: int|
            0 <= i < v.emitted_by_segment(seg).len() ==> dispatch::extractable(
                buffer@,
                #[trigger] v.emitted_by_segment(seg)[i],
            ),
{
    let e = v.emitted_by_segment(seg);
    cut::completed_chunks_are_filled(v, seg);
    buffer.lemma_appended_fits();
    assert forall|i: int| 0 <= i < e.len() implies dispatch::extractable(
        buffer@,
        #[trigger] e[i],
    ) by {
        lemma_extractable(buffer, e[i]);
    }
}

proof fn lemma_trailing_chunk_extractable(buffer: SampleBuffer, v: CutView)
    requires
        buffer.wf(),
        v.inv(),
        buffer@.output_tb is Some ==> buffer@.pts_fits(buffer@.appended) && buffer@.pts_fits(0),
        v.start is Some ==> buffer@.output_tb is Some,
        v.start is Some ==> v.end <= buffer@.appended,
        v.start matches Some(start) ==> buffer@.dropped() <= start,
    ensures
        v.start is Some ==> dispatch::extractable(buffer@, v.current()),
{
    if v.start is Some {
        cut::trailing_chunk_is_filled(v);
        lemma_extractable(buffer, v.current());
    }
}

proof fn lemma_extractable(buffer: SampleBuffer, chunk: ChunkView)
    requires
        buffer.wf(),
        chunk.range.wf(),
        chunk.covers_its_pieces(),
        buffer@.live(chunk.range),
        buffer@.output_tb is Some,
        buffer@.pts_fits(buffer@.appended),
        buffer@.pts_fits(0),
    ensures
        dispatch::extractable(buffer@, chunk),
{
    buffer.lemma_appended_fits();
    let whole = SampleRange { start: 0, end: buffer@.appended as u64 };
    buffer.lemma_pts_between(whole, chunk.range);
}

/// Chunks that are cut take the open slots in order, with consecutive identities
/// and one recognition command each; those beyond wait, in order, behind the
/// chunks that wait already. Nothing else changes.
#[verifier::rlimit(60)]
pub proof fn cut_chunks_take_slots_in_order(
    d: DispatchView,
    first: int,
    chunks: Seq<ChunkView>,
    buffer: SampleBufferView,
)
    requires
        d.inv(),
        d.settled(),
        !d.draining,
        0 <= first,
        first + chunks.len() < u64::MAX,
        d.accounts_for(first as u64),
    ensures
        ({
            let e = after_emits(d, first, chunks, buffer);
            let entered = vstd::math::min(
                chunks.len() as int,
                d.max_in_flight - d.in_flight.len(),
            );
            &&& 0 <= entered
            &&& e.pending == d.pending + Seq::new(
                (chunks.len() - entered) as nat,
                |i: int| ((first + entered + i) as u64, chunks[entered + i]),
            )
            &&& e.commands == d.commands + Seq::new(
                entered as nat,
                |i: int|
                    CommandView::RunAsr {
                        chunk_id: ChunkId { raw: (first + i) as u64 },
                        samples: buffer.slice(chunks[i].range),
                        sample_rate: 16_000,
                        params: d.asr_params,
                    },
            )
            &&& forall|id: u64| #[trigger]
                e.in_flight.contains_key(id) <==> d.in_flight.contains_key(id) || first <= id
                    < first + entered
            &&& forall|id: u64| #[trigger]
                d.in_flight.contains_key(id) ==> e.in_flight[id] == d.in_flight[id]
            &&& forall|id: u64|
                first <= id < first + entered ==> {
                    let record = #[trigger] e.in_flight[id];
                    &&& record.chunk_id.raw == id
                    &&& record.samples == buffer.slice(chunks[id - first].range)
                    &&& record.sample_range == chunks[id - first].range
                    &&& record.range == buffer.output_range(chunks[id - first].range)
                    &&& record.phase is AwaitingAsr
                    &&& record.asr_result is None
                }
            &&& e.in_flight.len() == d.in_flight.len() + entered
            &&& e.events == d.events
            &&& e.next_emit == d.next_emit
            &&& e.parked == d.parked
            &&& e.asr_params == d.asr_params
            &&& e.word_alignment == d.word_alignment
            &&& e.max_in_flight == d.max_in_flight
            &&& e.inv()
            &&& e.settled()
            &&& !e.draining
            &&& e.accounts_for((first + chunks.len()) as u64)
        }),
    decreases chunks.len(),
{
    let e = after_emits(d, first, chunks, buffer);
    let room = d.max_in_flight - d.in_flight.len();
    let entered = vstd::math::min(chunks.len() as int, room);
    if chunks.len() == 0 {
        assert(e.pending =~= d.pending + Seq::new(
            (chunks.len() - entered) as nat,
            |i: int| ((first + entered + i) as u64, chunks[entered + i]),
        ));
        assert(e.commands =~= d.commands + Seq::new(
            entered as nat,
            |i: int|
                CommandView::RunAsr {
                    chunk_id: ChunkId { raw: (first + i) as u64 },
                    samples: buffer.slice(chunks[i].range),
                    sample_rate: 16_000,
                    params: d.asr_params,
                },
        ));
    } else {
        let before = chunks.drop_last();
        let n = chunks.len() - 1;
        let f = after_emits(d, first, before, buffer);
        let id = (first + n) as u64;
        cut_chunks_take_slots_in_order(d, first, before, buffer);
        dispatch::cut_chunks_are_accounted_for(f, id, chunks.last(), buffer);
        dispatch::cut_chunks_take_an_open_slot(f, id, chunks.last(), buffer);
        assert(e == f.after_emit(id, chunks.last(), buffer));
        assert(!f.in_flight.contains_key(id));
        assert(e.pending =~= d.pending + Seq::new(
            (chunks.len() - entered) as nat,
            |i: int| ((first + entered + i) as u64, chunks[entered + i]),
        ));
        assert(e.commands =~= d.commands + Seq::new(
            entered as nat,
            |i: int|
                CommandView::RunAsr {
                    chunk_id: ChunkId { raw: (first + i) as u64 },
                    samples: buffer.slice(chunks[i].range),
                    sample_rate: 16_000,
                    params: d.asr_params,
                },
        ));
        assert forall|k: u64| #[trigger]
            e.in_flight.contains_key(k) <==> d.in_flight.contains_key(k) || first <= k < first
                + entered by {
            assert(f.in_flight.contains_key(k) <==> d.in_flight.contains_key(k) || first <= k
                < first + vstd::math::min(n, room));
            assert(e.in_flight.dom().contains(k) <==> e.in_flight.contains_key(k));
        }
        assert forall|k: u64| #[trigger] d.in_flight.contains_key(k) implies e.in_flight[k]
            == d.in_flight[k] by {
            assert(f.in_flight.contains_key(k));
        }
        assert forall|k: u64| first <= k < first + entered implies {
            let record = #[trigger] e.in_flight[k];
            &&& record.chunk_id.raw == k
            &&& record.samples == buffer.slice(chunks[k - first].range)
            &&& record.sample_range == chunks[k - first].range
            &&& record.range == buffer.output_range(chunks[k - first].range)
            &&& record.phase is AwaitingAsr
            &&& record.asr_result is None
        } by {
            if k < first + vstd::math::min(n, room) {
                assert(f.in_flight.contains_key(k));
                assert(f.in_flight[k].chunk_id.raw == k);
                assert(before[k - first] == chunks[k - first]);
            }
        }
    }
}

/// A segment that starts no earlier than the speech so far ended is taken: each
/// chunk that it completes gets the next identity. One that starts earlier is
/// refused by how much, and changes nothing.
pub proof fn segments_are_taken_in_order(v: TranscriberView, seg: VadSegment)
    requires
        v.inv(),
        !v.eof,
        seg.start <= i64::MAX,
    ensures
        seg.start >= v.cut.end ==> {
            let (w, answer) = v.pushed_segment(seg);
            &&& answer is Ok
            &&& v.next_chunk_id + v.cut.emitted_by_segment(seg).len() <= u64::MAX
                ==> w.next_chunk_id == v.next_chunk_id + v.cut.emitted_by_segment(seg).len()
            &&& w.dispatch == after_emits(
                v.dispatch,
                v.next_chunk_id as int,
                v.cut.emitted_by_segment(seg),
                v.buffer,
            )
            &&& w.cut == v.cut.after_segment(seg)
            &&& w.buffer == v.buffer
            &&& w.detected == v.detected
            &&& w.config == v.config
            &&& !w.eof
        },
        seg.start < v.cut.end ==> v.pushed_segment(seg).0 == v && (v.pushed_segment(
            seg,
        ).1 matches Err(TranscriberError::PtsRegression { kind, advance }) && kind is VadSegment
            && advance == seg.start - v.cut.end),
{
}

/// The end of the stream completes the open chunk, if there is one, and is final:
/// whatever is pushed or signalled later is refused and changes nothing.
pub proof fn nothing_is_taken_after_the_end(
    v: TranscriberView,
    starts_at: Timestamp,
    samples: Seq<Binary32>,
    seg: VadSegment,
)
    requires
        v.inv(),
    ensures
        !v.eof ==> {
            let (w, answer) = v.signalled_eof();
            &&& answer is Ok
            &&& w.eof
            &&& w.cut.start is None
            &&& v.next_chunk_id < u64::MAX ==> w.next_chunk_id == v.next_chunk_id + (
            if v.cut.start is Some {
                1int
            } else {
                0
            })
            &&& w.dispatch == after_emits(
                v.dispatch,
                v.next_chunk_id as int,
                v.cut.emitted_by_flush(),
                v.buffer,
            )
            &&& w.buffer == v.buffer
            &&& w.detected == v.detected
            &&& w.config == v.config
        },
        v.eof ==> {
            &&& v.signalled_eof() == (v, Err::<(), _>(TranscriberError::AfterEof))
            &&& v.pushed_samples(starts_at, samples) == (
                v,
                Err::<(), _>(TranscriberError::AfterEof),
            )
            &&& v.pushed_segment(seg) == (v, Err::<(), _>(TranscriberError::AfterEof))
        },
{
}

/// Before the end of the stream, a packet goes to the buffer alone, and the
/// answer is the buffer's.
pub proof fn packets_go_to_the_buffer(
    v: TranscriberView,
    starts_at: Timestamp,
    samples: Seq<Binary32>,
)
    requires
        !v.eof,
    ensures
        ({
            let (w, answer) = v.pushed_samples(starts_at, samples);
            &&& w.buffer == v.buffer.after_append(starts_at, samples)
            &&& answer == v.buffer.append_result(starts_at, samples)
            &&& w.cut == v.cut
            &&& w.dispatch == v.dispatch
            &&& w.next_chunk_id == v.next_chunk_id
            &&& !w.eof
            &&& w.detected == v.detected
            &&& w.config == v.config
        }),
{
}

/// Which results count toward a lock, and what they do. Under the policy of
/// locking after so many, the first result of a chunk in flight counts, in
/// whatever language, if it has text and fewer came before it: its language is
/// noted last, and with the last that counts the language settled on is asked
/// for from then on. Nothing else changes, and no other result changes anything.
pub proof fn first_results_with_text_count(v: TranscriberView, id: u64, result: AsrResult)
    requires
        v.inv(),
    ensures
        ({
            let w = v.after_detection(id, result);
            let first = v.dispatch.in_flight.contains_key(id)
                && v.dispatch.in_flight[id].asr_result is None;
            let counts = first && text::smol_str_chars(result.text).len() > 0 && (
            v.config.language_policy matches LanguagePolicy::AutoLockAfter(n) && v.detected.len()
                < n);
            &&& !counts ==> w == v
            &&& counts ==> {
                &&& w.detected == v.detected.push(result.language)
                &&& w.dispatch.asr_params.language_hint == if w.detected.len()
                    == v.config.language_policy->AutoLockAfter_0 {
                    Some(language::most_frequent(w.detected))
                } else {
                    v.dispatch.asr_params.language_hint
                }
                &&& w.dispatch == (DispatchView {
                    asr_params: AsrParams {
                        language_hint: w.dispatch.asr_params.language_hint,
                        ..v.dispatch.asr_params
                    },
                    ..v.dispatch
                })
                &&& w.buffer == v.buffer
                &&& w.cut == v.cut
                &&& w.next_chunk_id == v.next_chunk_id
                &&& w.eof == v.eof
                &&& w.config == v.config
            }
        }),
{
    let w = v.after_detection(id, result);
    assert(w.dispatch =~= (DispatchView {
        asr_params: AsrParams {
            language_hint: w.dispatch.asr_params.language_hint,
            ..v.dispatch.asr_params
        },
        ..v.dispatch
    }));
}

/// At any time, chunks enter flight with the configured parameters, but for the
/// language: a policy that names one decides it, one that locks after so many
/// results decides it once so many came, and until then, or with any other
/// policy, it is the configured one.
pub proof fn the_policy_decides_the_language(v: TranscriberView)
    requires
        v.inv(),
    ensures
        v.dispatch.asr_params == (AsrParams {
            language_hint: v.dispatch.asr_params.language_hint,
            ..v.config.asr_params
        }),
        match v.config.language_policy {
            LanguagePolicy::Auto => v.dispatch.asr_params.language_hint
                == v.config.asr_params.language_hint,
            LanguagePolicy::Lock { hint } => v.dispatch.asr_params.language_hint == Some(hint),
            LanguagePolicy::AutoLockAfter(n) => {
                &&& n > 0 && v.detected.len() >= n ==> v.dispatch.asr_params.language_hint
                    == Some(language::most_frequent(v.detected))
                &&& n == 0 || v.detected.len() < n ==> v.dispatch.asr_params.language_hint
                    == v.config.asr_params.language_hint
            },
        },
{
}

/// Where words are aligned, a result with text, in whatever language, leaves the
/// chunk waiting for alignment and asks for it once, with that text and that
/// language. Otherwise the chunk is finished, with what was recognised and no
/// words, and alignment is not asked for.
pub proof fn alignment_is_asked_for_where_there_is_text(
    v: TranscriberView,
    id: u64,
    result: AsrResult,
)
    requires
        v.inv(),
        v.dispatch.in_flight.contains_key(id),
    ensures
        ({
            let w = v.after_asr_result(id, result);
            let d = v.dispatch;
            let e = w.dispatch;
            &&& v.config.word_alignment && text::smol_str_chars(result.text).len() > 0 ==> {
                &&& e.in_flight[id].phase is AwaitingAlignment
                &&& e.in_flight[id].asr_result == Some(result)
                &&& e.commands == d.commands.push(
                    CommandView::RunAlignment {
                        chunk_id: ChunkId { raw: id },
                        samples: d.in_flight[id].samples,
                        sub_segments: d.in_flight[id].sub_segments,
                        text: text::smol_str_chars(result.text),
                        language: result.language,
                    },
                )
                &&& e.events == d.events
                &&& w.buffer == v.buffer
            }
            &&& !v.config.word_alignment || text::smol_str_chars(result.text).len() == 0 ==> {
                &&& forall|k: int|
                    d.commands.len() <= k < e.commands.len() ==> #[trigger] e.commands[k] is RunAsr
                &&& e.in_flight.contains_key(id) ==> (
                e.in_flight[id].phase matches PhaseView::Ready(t) && t.words.len() == 0 && t.text
                    == text::smol_str_chars(result.text) && t.language == result.language)
                &&& id == d.next_emit ==> e.events.len() > d.events.len()
            }
            &&& w.cut == v.cut
            &&& w.next_chunk_id == v.next_chunk_id
            &&& w.eof == v.eof
            &&& w.config == v.config
        }),
{
    let told = v.after_detection(id, result);
    lemma_after_detection(v, id, result);
    if v.config.word_alignment && text::smol_str_chars(result.text).len() > 0 {
        dispatch::recognised_text_goes_to_alignment(
            told.dispatch,
            id,
            result,
            told.buffer,
            told.cut.start,
        );
        let e = v.after_asr_result(id, result).dispatch;
        assert(e.commands =~= told.dispatch.commands.push(e.commands.last()));
    } else {
        dispatch::unaligned_text_finishes_the_chunk(
            told.dispatch,
            id,
            result,
            told.buffer,
            told.cut.start,
        );
    }
}

/// Aligned words and failures reach their chunk with the open chunk's audio kept,
/// and change neither the chunk under construction nor the language.
pub proof fn outcomes_reach_their_chunk(
    v: TranscriberView,
    id: u64,
    words: Seq<WordView>,
    failure: WorkFailure,
)
    requires
        v.inv(),
        0 <= v.buffer.samples.len() <= v.buffer.appended <= i64::MAX,
        v.dispatch.in_flight.contains_key(id),
    ensures
        ({
            let w = v.after_failure(id, failure);
            let e = w.dispatch;
            &&& e.in_flight.contains_key(id) ==> e.in_flight[id].phase == PhaseView::Failed(
                failure,
            )
            &&& id == v.dispatch.next_emit ==> e.events.len() > v.dispatch.events.len()
                && e.events[v.dispatch.events.len() as int] == (EventView::Error {
                chunk_id: ChunkId { raw: id },
                error: failure,
            })
            &&& w.cut == v.cut
            &&& w.detected == v.detected
            &&& w.next_chunk_id == v.next_chunk_id
            &&& w.eof == v.eof
            &&& w.config == v.config
            &&& w.dispatch.asr_params == v.dispatch.asr_params
            &&& !v.eof ==> (v.cut.start matches Some(start) ==> w.buffer.dropped() <= start)
        }),
        v.dispatch.in_flight[id].asr_result is Some ==> {
            let w = v.after_alignment_result(id, words);
            let e = w.dispatch;
            let result = v.dispatch.in_flight[id].asr_result->0;
            &&& e.in_flight.contains_key(id) ==> (
            e.in_flight[id].phase matches PhaseView::Ready(t) && t.words == words && t.text
                == text::smol_str_chars(result.text) && t.language == result.language)
            &&& id == v.dispatch.next_emit ==> e.events.len() > v.dispatch.events.len() && (
            e.events[v.dispatch.events.len() as int] matches EventView::Transcript(t) && t.words
                == words && t.text == text::smol_str_chars(result.text) && t.language
                == result.language && t.chunk_id.raw == id)
            &&& w.cut == v.cut
            &&& w.detected == v.detected
            &&& w.next_chunk_id == v.next_chunk_id
            &&& w.eof == v.eof
            &&& w.config == v.config
            &&& w.dispatch.asr_params == v.dispatch.asr_params
            &&& !v.eof ==> (v.cut.start matches Some(start) ==> w.buffer.dropped() <= start)
        },
{
    let d = v.dispatch;
    dispatch::failures_finish_the_chunk(d, id, failure, v.buffer, v.cut.start);
    lemma_after_record(v, id, d.failed(id, failure));
    if d.in_flight[id].asr_result is Some {
        dispatch::aligned_words_finish_the_chunk(d, id, words, v.buffer, v.cut.start);
        lemma_after_record(v, id, d.transcribed(id, d.in_flight[id].asr_result->0, words));
    }
}

/// An outcome frees the audio that nobody needs any more: live audio starts where
/// the first waiting chunk or the chunk under construction does, or where the
/// audio ends, unless it starts later already.
pub proof fn outcomes_free_the_audio_nobody_needs(
    v: TranscriberView,
    id: u64,
    words: Seq<WordView>,
    failure: WorkFailure,
) -> (needed: int)
    requires
        v.inv(),
        0 <= v.buffer.samples.len() <= v.buffer.appended <= i64::MAX,
        v.dispatch.in_flight.contains_key(id),
    ensures
        v.after_failure(id, failure).buffer.dropped() == vstd::math::max(
            v.buffer.dropped(),
            needed,
        ),
        v.after_alignment_result(id, words).buffer.dropped() == vstd::math::max(
            v.buffer.dropped(),
            needed,
        ),
        forall|i: int|
            0 <= i < v.dispatch.pending.len() ==> needed <= (
            #[trigger] v.dispatch.pending[i]).1.range.start,
        v.cut.start matches Some(start) ==> needed <= start,
        v.dispatch.pending.len() == 0 ==> needed <= v.buffer.appended,
        ({
            ||| exists|i: int|
                0 <= i < v.dispatch.pending.len() && needed == (
                #[trigger] v.dispatch.pending[i]).1.range.start
            ||| v.cut.start is Some && needed == v.cut.start->0
            ||| v.dispatch.pending.len() == 0 && needed == v.buffer.appended
        }),
{
    let failed = v.dispatch.failed(id, failure);
    let aligned = v.dispatch.transcribed(id, v.dispatch.in_flight[id].asr_result->0, words);
    dispatch::refiling_keeps_the_invariant(v.dispatch, id, failed.in_flight[id]);
    dispatch::refiling_keeps_the_invariant(v.dispatch, id, aligned.in_flight[id]);
    dispatch::flushing_keeps_the_invariant(failed);
    dispatch::flushing_keeps_the_invariant(aligned);
    assert(failed.pending_live(v.buffer));
    let needed = dispatch::only_needed_audio_is_kept(failed, v.buffer, v.cut.start);
    let same = dispatch::only_needed_audio_is_kept(aligned, v.buffer, v.cut.start);
    assert(failed.pending == v.dispatch.pending);
    assert(aligned.pending == v.dispatch.pending);
    lemma_same_need(v, needed, same);
    needed
}

proof fn lemma_same_need(v: TranscriberView, a: int, b: int)
    requires
        forall|i: int|
            0 <= i < v.dispatch.pending.len() ==> a <= (
            #[trigger] v.dispatch.pending[i]).1.range.start,
        forall|i: int|
            0 <= i < v.dispatch.pending.len() ==> b <= (
            #[trigger] v.dispatch.pending[i]).1.range.start,
        v.cut.start matches Some(start) ==> a <= start,
        v.cut.start matches Some(start) ==> b <= start,
        v.dispatch.pending.len() == 0 ==> a <= v.buffer.appended,
        v.dispatch.pending.len() == 0 ==> b <= v.buffer.appended,
        ({
            ||| exists|i: int|
                0 <= i < v.dispatch.pending.len() && a == (
                #[trigger] v.dispatch.pending[i]).1.range.start
            ||| v.cut.start is Some && a == v.cut.start->0
            ||| v.dispatch.pending.len() == 0 && a == v.buffer.appended
        }),
        ({
            ||| exists|i: int|
                0 <= i < v.dispatch.pending.len() && b == (
                #[trigger] v.dispatch.pending[i]).1.range.start
            ||| v.cut.start is Some && b == v.cut.start->0
            ||| v.dispatch.pending.len() == 0 && b == v.buffer.appended
        }),
    ensures
        a == b,
{
}

/// A machine that nothing was pushed to is idle and follows its configuration.
pub proof fn fresh_machines_follow_their_configuration(config: TranscriberConfig)
    ensures
        ({
            let v = TranscriberView::fresh(config);
            &&& v.inv()
            &&& v.idle()
            &&& !v.eof
            &&& v.config == config
            &&& v.next_chunk_id == 0
            &&& v.detected.len() == 0
            &&& v.buffer.output_tb is None
            &&& v.buffer.appended == 0
            &&& v.buffer.cap == config.buffer_cap_samples
            &&& v.buffer.gap_tolerance == config.gap_tolerance_samples
            &&& v.cut.chunk_size == config.chunk_size_samples
            &&& v.cut.start is None
            &&& v.cut.end == 0
            &&& v.cut.next_vad_seq == 0
            &&& v.dispatch.next_emit == 0
            &&& v.dispatch.max_in_flight == config.max_in_flight
            &&& v.dispatch.word_alignment == config.word_alignment
            &&& !v.dispatch.draining
        }),
{
}

/// By default chunks last up to thirty seconds of audio at 16 kHz and twice as
/// much is buffered, gaps up to a fifth of a second are filled, six chunks are in
/// flight, words are not aligned, and the first result with text locks the
/// language.
pub proof fn default_configurations_are_in_seconds()
    ensures
        ({
            let config = TranscriberConfig::defaults();
            &&& config.chunk_size_samples == 30 * 16_000
            &&& config.buffer_cap_samples == 2 * config.chunk_size_samples
            &&& config.gap_tolerance_samples * 5 == 16_000
            &&& config.max_in_flight == 6
            &&& !config.word_alignment
            &&& config.language_policy == LanguagePolicy::AutoLockAfter(1)
            &&& config.asr_params.language_hint is None
            &&& config.asr_params.initial_prompt is None
            &&& config.asr_params.max_attempts == 6
            &&& config.asr_params.n_threads == 1
            &&& config.asr_params.no_context
            &&& config.asr_params.suppress_blank
            &&& !config.asr_params.suppress_non_speech_tokens
        }),
{
}

/// The machine is idle exactly if no audio is live, no chunk waits or is in
/// flight, and no command and no event is left to poll.
pub proof fn idle_machines_hold_nothing(v: TranscriberView)
    requires
        v.inv(),
    ensures
        v.idle() <==> {
            &&& v.buffer.samples.len() == 0
            &&& v.dispatch.pending.len() == 0
            &&& forall|id: u64| !(#[trigger] v.dispatch.in_flight.contains_key(id))
            &&& v.dispatch.commands.len() == 0
            &&& v.dispatch.parked is None
            &&& v.dispatch.events.len() == 0
        },
{
    dispatch::idle_means_nothing_is_left(v.dispatch);
    dispatch::commands_are_polled_in_order(v.dispatch);
}

/// Whatever is injected, the outcome of each chunk is reported exactly once and
/// in the order of the chunks: recording an outcome queues the events of the
/// chunks from `next_emit` on, one per chunk, behind those already queued, and
/// leaves the event that is polled next as it was.
pub proof fn outcomes_are_reported_in_order(v: TranscriberView, id: u64, recorded: DispatchView)
    requires
        v.inv(),
        0 <= v.buffer.samples.len() <= v.buffer.appended <= i64::MAX,
        v.dispatch.in_flight.contains_key(id),
        recorded == v.dispatch.with_record(id, recorded.in_flight[id]),
        recorded.in_flight[id].chunk_id == v.dispatch.in_flight[id].chunk_id,
        recorded.in_flight[id].phase matches PhaseView::Ready(t) ==> t.chunk_id.raw == id,
    ensures
        ({
            let w = v.after_record(recorded);
            let added = w.dispatch.next_emit - v.dispatch.next_emit;
            &&& w.inv()
            &&& added >= 0
            &&& w.dispatch.events.len() == v.dispatch.events.len() + added
            &&& w.dispatch.events.take(v.dispatch.events.len() as int) == v.dispatch.events
            &&& forall|i: int|
                0 <= i < added ==> (#[trigger] w.dispatch.events[v.dispatch.events.len()
                    + i]).chunk() == v.dispatch.next_emit + i
            &&& w.dispatch.next_polled() == v.dispatch.next_polled()
        }),
{
    lemma_after_record(v, id, recorded);
    dispatch::refiling_keeps_the_invariant(v.dispatch, id, recorded.in_flight[id]);
    dispatch::events_come_in_chunk_order(recorded);
    dispatch::flushing_keeps_the_invariant(recorded);
    dispatch::slots_are_filled_in_order(recorded.flushed(), v.after_record(recorded).buffer);
}

/// Results that come in before the stream ends cost no audio of the chunk under
/// construction: what came of it is live afterwards, and reads the same.
pub proof fn results_keep_the_open_chunk(
    v: TranscriberView,
    id: u64,
    recorded: DispatchView,
    part: SampleRange,
)
    requires
        v.inv(),
        0 <= v.buffer.samples.len() <= v.buffer.appended <= i64::MAX,
        !v.eof,
        v.dispatch.in_flight.contains_key(id),
        recorded == v.dispatch.with_record(id, recorded.in_flight[id]),
        recorded.in_flight[id].chunk_id == v.dispatch.in_flight[id].chunk_id,
        recorded.in_flight[id].phase matches PhaseView::Ready(t) ==> t.chunk_id.raw == id,
        v.cut.start matches Some(start) && start <= part.start <= part.end <= v.buffer.appended,
    ensures
        v.after_record(recorded).buffer.live(part),
        v.after_record(recorded).buffer.slice(part) == v.buffer.slice(part),
{
    lemma_after_record(v, id, recorded);
    crate::machine::buffer::trimming_keeps_later_samples(
        v.buffer,
        recorded.flushed().trim_mark(v.buffer, v.cut.start),
        part,
    );
}

/// A chunk that enters flight is recognised with the configured parameters, in
/// the language that the policy has settled on.
pub proof fn chunks_are_recognised_in_the_settled_language(
    v: TranscriberView,
    id: u64,
    chunk: ChunkView,
)
    requires
        v.inv(),
    ensures
        v.dispatch.promoted(id, chunk, v.buffer).commands.last() matches CommandView::RunAsr {
            params,
            ..
        } && params == (AsrParams { language_hint: v.hint(), ..v.config.asr_params }),
{
}

/// The last result that counts locks the most frequent language; if only one
/// counts, that is its own.
pub proof fn enough_results_lock_a_language(
    v: TranscriberView,
    id: u64,
    result: AsrResult,
    quota: usize,
)
    requires
        v.inv(),
        v.config.language_policy == LanguagePolicy::AutoLockAfter(quota),
        v.tells_language(id, result),
        v.detected.len() + 1 == quota,
    ensures
        v.after_detection(id, result).hint() == Some(
            language::most_frequent(v.detected.push(result.language)),
        ),
        !v.after_detection(id, result).detecting(),
        quota == 1 ==> v.after_detection(id, result).hint() == Some(result.language),
{
    let detected = v.detected.push(result.language);
    language::the_most_frequent_was_detected(detected);
}

/// Once a language is locked, no result changes it.
pub proof fn a_lock_is_final(v: TranscriberView, id: u64, result: AsrResult)
    requires
        !v.detecting(),
    ensures
        v.after_detection(id, result) == v,
{
}

/// What [`Transcriber::would_accept`] promises: of a contiguous packet it says
/// whether pushing the packet succeeds.
pub proof fn accepted_packets_are_taken(
    v: TranscriberView,
    starts_at: Timestamp,
    packet: Seq<Binary32>,
)
    requires
        v.inv(),
        v.buffer.output_tb matches Some(tb) && tb.wf() && tb.num > 0,
        v.buffer.gap_tolerance >= 0,
        v.buffer.next_expected() == Some(starts_at),
    ensures
        v.accepts(packet.len() as int) <==> v.buffer.append_result(starts_at, packet) is Ok,
{
    crate::machine::buffer::contiguous_packets_are_accepted(v.buffer, starts_at, packet);
}

/// Once nothing is queued, waiting or in flight, every chunk that was cut has
/// had its event polled.
pub proof fn idle_means_all_reported(v: TranscriberView)
    requires
        v.inv(),
        v.dispatch.idle(),
    ensures
        v.dispatch.next_polled() == v.next_chunk_id,
{
    let d = v.dispatch;
    if d.next_emit < v.next_chunk_id {
        let id = d.next_emit;
        assert(d.in_flight.contains_key(id) || d.waiting(id));
        assert(d.in_flight.dom().contains(id));
    }
}

/// While a chunk has no event, some chunk is in flight whose outcome is
/// awaited, so the driver always has something to wait for.
pub proof fn unreported_chunks_are_worked_on(v: TranscriberView)
    requires
        v.inv(),
        v.config.max_in_flight > 0,
        v.dispatch.next_emit < v.next_chunk_id,
    ensures
        v.dispatch.in_flight.contains_key(v.dispatch.next_emit),
        !v.dispatch.in_flight[v.dispatch.next_emit].phase.done(),
{
    dispatch::the_next_chunk_is_in_flight(v.dispatch, v.next_chunk_id);
}

proof fn lemma_after_refile(v: TranscriberView, id: u64, asked: DispatchView)
    requires
        v.inv(),
        v.dispatch.in_flight.contains_key(id),
        asked == (DispatchView {
            in_flight: asked.in_flight,
            commands: asked.commands,
            ..v.dispatch
        }),
        asked.in_flight == v.dispatch.in_flight.insert(id, asked.in_flight[id]),
        asked.in_flight[id].chunk_id == v.dispatch.in_flight[id].chunk_id,
        !asked.in_flight[id].phase.done(),
    ensures
        (TranscriberView { dispatch: asked, ..v }).inv(),
{
    let d = v.dispatch;
    dispatch::refiling_keeps_the_invariant(
        DispatchView { commands: asked.commands, ..d },
        id,
        asked.in_flight[id],
    );
    assert(asked =~= (DispatchView { commands: asked.commands, ..d }).with_record(
        id,
        asked.in_flight[id],
    ));
    lemma_same_ids(d, asked, v.next_chunk_id);
}

proof fn lemma_same_ids(d: DispatchView, e: DispatchView, next: u64)
    requires
        d.accounts_for(next),
        e.in_flight.dom() == d.in_flight.dom(),
        e.pending == d.pending,
        e.next_emit == d.next_emit,
    ensures
        e.accounts_for(next),
{
    assert forall|id: u64|
        e.next_emit <= id < next <==> (#[trigger] e.in_flight.contains_key(id) || e.waiting(id)) by {
        assert(d.next_emit <= id < next <==> d.in_flight.contains_key(id) || d.waiting(id));
        assert(e.pending =~= d.pending);
    }
    assert forall|id: u64, i: int|
        #![trigger e.in_flight.contains_key(id), e.pending[i]]
        e.in_flight.contains_key(id) && 0 <= i < e.pending.len() implies id < e.pending[i].0 by {
        assert(d.in_flight.contains_key(id));
    }
}

proof fn lemma_after_record(v: TranscriberView, id: u64, recorded: DispatchView)
    requires
        v.inv(),
        0 <= v.buffer.samples.len() <= v.buffer.appended <= i64::MAX,
        v.dispatch.in_flight.contains_key(id),
        recorded == v.dispatch.with_record(id, recorded.in_flight[id]),
        recorded.in_flight[id].chunk_id == v.dispatch.in_flight[id].chunk_id,
        recorded.in_flight[id].phase matches PhaseView::Ready(t) ==> t.chunk_id.raw == id,
    ensures
        v.after_record(recorded).inv(),
{
    dispatch::refiling_keeps_the_invariant(v.dispatch, id, recorded.in_flight[id]);
    lemma_same_ids(v.dispatch, recorded, v.next_chunk_id);
    dispatch::recorded_chunks_are_accounted_for(recorded, v.next_chunk_id, v.buffer, v.cut.start);
    dispatch::flushing_keeps_the_invariant(recorded);
    dispatch::trimming_keeps_pending_live(recorded.flushed(), v.buffer, v.cut.start);
    dispatch::slots_are_filled_in_order(recorded.flushed(), v.after_record(recorded).buffer);
    let w = v.after_record(recorded);
    let f = recorded.flushed();
    assert forall|i: int| 0 <= i < w.dispatch.pending.len() implies dispatch::extractable(
        w.buffer,
        (#[trigger] w.dispatch.pending[i]).1,
    ) by {
        let entered = f.pending.len() - w.dispatch.pending.len();
        assert(w.dispatch.pending[i] == f.pending[i + entered]);
    }
}

proof fn lemma_queues_are_free(v: TranscriberView, w: TranscriberView)
    requires
        v.inv(),
        w == (TranscriberView { dispatch: w.dispatch, ..v }),
        w.dispatch == (DispatchView {
            commands: w.dispatch.commands,
            events: w.dispatch.events,
            parked: w.dispatch.parked,
            ..v.dispatch
        }),
        w.dispatch.events_in_order(),
    ensures
        w.inv(),
{
    let d = v.dispatch;
    let e = w.dispatch;
    assert(e.in_flight == d.in_flight && e.pending == d.pending);
    assert forall|id: u64|
        e.next_emit <= id < w.next_chunk_id <==> (#[trigger] e.in_flight.contains_key(id)
            || e.waiting(id)) by {
        assert(d.in_flight.contains_key(id) || d.waiting(id) <==> d.next_emit <= id
            < v.next_chunk_id);
    }
}

} // verus!
