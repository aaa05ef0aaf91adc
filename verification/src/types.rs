//! Values that cross the crate's boundary: chunk identities, words,
//! transcripts and failures.

use core::time::Duration;

use smol_str::SmolStr;
use vstd::prelude::*;

use crate::binary32::Binary32;
use crate::lang::Lang;
use crate::text;
use crate::time::{TimeRange, Timebase};

verus! {

/// Identity of a chunk: its position in the order in which chunks were cut.
#[derive(Clone, Copy, Debug, PartialEq, Eq, Structural, Hash, PartialOrd, Ord)]
pub struct ChunkId {
    /// Position, counted from zero.
    pub raw: u64,
}

impl ChunkId {
    /// The chunk at position `raw`.
    pub fn from_raw(raw: u64) -> (id: ChunkId)
        ensures
            id.raw == raw,
    {
        ChunkId { raw }
    }

    /// The chunk's position.
    pub fn as_u64(&self) -> (raw: u64)
        ensures
            raw == self.raw,
    {
        self.raw
    }
}

/// A stretch of speech found by voice-activity detection, as a half-open range
/// of analysis samples counted from the start of the stream.
#[derive(Clone, Copy, Debug, PartialEq, Eq, Structural)]
pub struct VadSegment {
    /// First sample.
    pub start: u64,
    /// One past the last sample.
    pub end: u64,
}

impl VadSegment {
    /// A segment is well formed when it does not end before it starts.
    pub open spec fn wf(self) -> bool {
        self.start <= self.end
    }

    /// The segment `[start, end)`.
    pub fn new(start: u64, end: u64) -> (segment: VadSegment)
        requires
            start <= end,
        ensures
            segment == (VadSegment { start, end }),
            segment.wf(),
    {
        VadSegment { start, end }
    }
}

/// One aligned word.
#[derive(Debug)]
pub struct Word {
    text: SmolStr,
    range: TimeRange,
    score: Binary32,
}

/// What a [`Word`] says.
pub struct WordView {
    /// Surface form.
    pub text: Seq<char>,
    /// Position in the output timebase.
    pub range: TimeRange,
    /// Alignment confidence.
    pub score: Binary32,
}

impl View for Word {
    type V = WordView;

    closed spec fn view(&self) -> WordView {
        WordView {
            text: text::smol_str_chars(self.text),
            range: self.range,
            score: self.score,
        }
    }
}

impl Word {
    /// Construct a word from its surface form, position and confidence.
    pub fn new(text: SmolStr, range: TimeRange, score: Binary32) -> (word: Word)
        ensures
            word@ == (WordView { text: text::smol_str_chars(text), range, score }),
    {
        Word { text, range, score }
    }

    /// Surface form.
    pub fn text(&self) -> (surface: &str)
        ensures
            surface@ == self@.text,
    {
        self.text.as_str()
    }

    /// Position in the output timebase.
    pub fn range(&self) -> (range: TimeRange)
        ensures
            range == self@.range,
    {
        self.range
    }

    /// Alignment confidence.
    pub fn score(&self) -> (score: Binary32)
        ensures
            score == self@.score,
    {
        self.score
    }
}

impl Clone for Word {
    fn clone(&self) -> (copy: Word)
        ensures
            copy == *self,
    {
        Word { text: self.text.clone(), range: self.range, score: self.score }
    }
}

/// The words of a list of words.
pub open spec fn word_views(words: Seq<Word>) -> Seq<WordView> {
    words.map_values(|word: Word| word@)
}

/// A list of words is viewed word by word.
pub proof fn words_are_viewed_one_by_one(words: Seq<Word>, i: int)
    requires
        0 <= i < words.len(),
    ensures
        word_views(words).len() == words.len(),
        word_views(words)[i] == words[i]@,
{
}

/// What one chunk transcribed to.
#[derive(Debug)]
pub struct Transcript {
    range: TimeRange,
    language: Lang,
    text: SmolStr,
    words: Vec<Word>,
    avg_logprob: Binary32,
    no_speech_prob: Binary32,
    temperature: Binary32,
    vad_segments: Vec<TimeRange>,
    chunk_id: ChunkId,
}

/// What a [`Transcript`] says.
pub struct TranscriptView {
    /// Bounds of the chunk in the output timebase.
    pub range: TimeRange,
    /// Detected or given language.
    pub language: Lang,
    /// Verbatim recogniser output.
    pub text: Seq<char>,
    /// Word alignment, possibly empty.
    pub words: Seq<WordView>,
    /// Mean log-probability over the emitted tokens.
    pub avg_logprob: Binary32,
    /// No-speech probability.
    pub no_speech_prob: Binary32,
    /// Decoding temperature of the accepted attempt.
    pub temperature: Binary32,
    /// The speech ranges that the chunk is made of.
    pub vad_segments: Seq<TimeRange>,
    /// Chunk identity.
    pub chunk_id: ChunkId,
}

impl View for Transcript {
    type V = TranscriptView;

    closed spec fn view(&self) -> TranscriptView {
        TranscriptView {
            range: self.range,
            language: self.language,
            text: text::smol_str_chars(self.text),
            words: word_views(self.words@),
            avg_logprob: self.avg_logprob,
            no_speech_prob: self.no_speech_prob,
            temperature: self.temperature,
            vad_segments: self.vad_segments@,
            chunk_id: self.chunk_id,
        }
    }
}

impl Transcript {
    /// Construct a transcript from its parts.
    pub fn new(
        chunk_id: ChunkId,
        range: TimeRange,
        vad_segments: Vec<TimeRange>,
        language: Lang,
        text: SmolStr,
        words: Vec<Word>,
        avg_logprob: Binary32,
        no_speech_prob: Binary32,
        temperature: Binary32,
    ) -> (transcript: Transcript)
        ensures
            transcript@ == (TranscriptView {
                range,
                language,
                text: text::smol_str_chars(text),
                words: word_views(words@),
                avg_logprob,
                no_speech_prob,
                temperature,
                vad_segments: vad_segments@,
                chunk_id,
            }),
    {
        Transcript {
            range,
            language,
            text,
            words,
            avg_logprob,
            no_speech_prob,
            temperature,
            vad_segments,
            chunk_id,
        }
    }

    /// Bounds of the chunk in the output timebase.
    pub fn range(&self) -> (range: TimeRange)
        ensures
            range == self@.range,
    {
        self.range
    }

    /// Detected or given language.
    pub fn language(&self) -> (language: &Lang)
        ensures
            *language == self@.language,
    {
        &self.language
    }

    /// Verbatim recogniser output.
    pub fn text(&self) -> (verbatim: &str)
        ensures
            verbatim@ == self@.text,
    {
        self.text.as_str()
    }

    /// Word alignment, possibly empty.
    pub fn words(&self) -> (words: &[Word])
        ensures
            word_views(words@) == self@.words,
    {
        self.words.as_slice()
    }

    /// Mean log-probability over the emitted tokens.
    pub fn avg_logprob(&self) -> (value: Binary32)
        ensures
            value == self@.avg_logprob,
    {
        self.avg_logprob
    }

    /// No-speech probability.
    pub fn no_speech_prob(&self) -> (value: Binary32)
        ensures
            value == self@.no_speech_prob,
    {
        self.no_speech_prob
    }

    /// Decoding temperature of the accepted attempt.
    pub fn temperature(&self) -> (value: Binary32)
        ensures
            value == self@.temperature,
    {
        self.temperature
    }

    /// The speech ranges that the chunk is made of.
    pub fn vad_segments(&self) -> (segments: &[TimeRange])
        ensures
            segments@ == self@.vad_segments,
    {
        self.vad_segments.as_slice()
    }

    /// Chunk identity.
    pub fn chunk_id(&self) -> (id: ChunkId)
        ensures
            id == self@.chunk_id,
    {
        self.chunk_id
    }
}

/// Which input a push carried.
#[derive(Clone, Copy, Debug, PartialEq, Eq, Structural)]
pub enum PushKind {
    /// Audio samples.
    Samples,
    /// A voice-activity segment.
    VadSegment,
}

/// Why the state machine refused an input.
#[derive(Clone, Copy, Debug)]
pub enum TranscriberError {
    /// The input starts before the current high-water mark.
    PtsRegression {
        /// Which input.
        kind: PushKind,
        /// How far it advances past the mark; negative.
        advance: i64,
    },
    /// A packet leaves a gap that is too long to fill with silence.
    GapExceedsTolerance {
        /// Length of the gap in analysis samples.
        gap_samples: u64,
        /// Longest gap that is filled.
        tolerance_samples: u64,
    },
    /// The packet is not in the stream's timebase.
    InconsistentTimebase {
        /// Timebase of the first packet.
        expected: Timebase,
        /// Timebase of this packet.
        got: Timebase,
    },
    /// The live buffer holds more samples than its cap.
    Backpressure {
        /// Samples in the buffer.
        buffered: usize,
        /// The cap.
        cap: usize,
    },
    /// A result names a chunk that is not waiting for it.
    UnknownChunk(ChunkId),
    /// An input came after the end of the stream.
    AfterEof,
}

/// Which worker a failure came from.
#[derive(Clone, Copy, Debug, PartialEq, Eq, Structural)]
pub enum WorkerKind {
    /// Speech recognition.
    Asr,
    /// Word alignment.
    Alignment,
}

/// Kinds of recognition failure.
#[derive(Clone, Copy, Debug, PartialEq, Eq, Structural)]
pub enum AsrFailureKind {
    /// The recogniser produced no tokens.
    EmptyOutput,
    /// Every temperature of the retry ladder was rejected.
    AllTemperaturesFailed,
    /// The detected language is not supported.
    UnsupportedLanguage,
    /// The inference backend reported an error.
    BackendError,
}

/// Kinds of alignment failure.
#[derive(Clone, Copy, Debug, PartialEq, Eq, Structural)]
pub enum AlignmentFailureKind {
    /// Inference failed or gave an unusable tensor.
    ModelInferenceFailed,
    /// The text could not be expressed in the model's vocabulary.
    TokenizationFailed,
    /// The text could not be normalised.
    NormalizationFailed,
    /// No alignment path fits the audio.
    NoAlignmentPath,
    /// Nothing was left of the text after normalisation.
    EmptyText,
}

/// Why the work on a chunk failed.
#[allow(inconsistent_fields)]
#[derive(Debug)]
pub enum WorkFailure {
    /// Recognition failed.
    AsrFailed {
        /// Kind of failure.
        kind: AsrFailureKind,
        /// Description.
        message: String,
    },
    /// Alignment failed.
    AlignmentFailed {
        /// Kind of failure.
        kind: AlignmentFailureKind,
        /// Description.
        message: String,
        /// Language of the aligner.
        language: Lang,
    },
    /// No aligner is registered for the language.
    LanguageUnsupportedForAlignment {
        /// The language.
        language: Lang,
    },
    /// A worker ran into its deadline.
    WorkerHangTimeout {
        /// Which worker.
        kind: WorkerKind,
        /// Time spent on the job.
        elapsed: Duration,
    },
}

impl Clone for WorkFailure {
    fn clone(&self) -> (copy: WorkFailure)
        ensures
            copy == *self,
    {
        match self {
            WorkFailure::AsrFailed { kind, message } => WorkFailure::AsrFailed {
                kind: *kind,
                message: message.clone(),
            },
            WorkFailure::AlignmentFailed { kind, message, language } => {
                WorkFailure::AlignmentFailed {
                    kind: *kind,
                    message: message.clone(),
                    language: language.clone(),
                }
            },
            WorkFailure::LanguageUnsupportedForAlignment { language } => {
                WorkFailure::LanguageUnsupportedForAlignment { language: language.clone() }
            },
            WorkFailure::WorkerHangTimeout { kind, elapsed } => WorkFailure::WorkerHangTimeout {
                kind: *kind,
                elapsed: *elapsed,
            },
        }
    }
}

} // verus!
