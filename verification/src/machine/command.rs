//! What the state machine asks its driver to do, and what comes back.
//!
//! Nothing here names a recogniser: the driver turns these values into calls
//! of whatever inference library it runs.

use std::sync::Arc;

use smol_str::SmolStr;
use vstd::prelude::*;

use crate::binary32::Binary32;
use crate::lang::Lang;
use crate::text;
use crate::time::TimeRange;
use crate::types;
use crate::types::{ChunkId, Word};

verus! {

/// Recognition parameters of a chunk.
#[derive(Debug)]
pub struct AsrParams {
    /// Language to decode in; `None` means auto-detection.
    pub language_hint: Option<Lang>,
    /// Sampling strategy.
    pub strategy: SamplingStrategy,
    /// Temperature of the first attempt.
    pub initial_temperature: Binary32,
    /// Added to the temperature on each further attempt.
    pub temperature_increment: Binary32,
    /// Most attempts made, the first one included.
    pub max_attempts: u8,
    /// A mean log-probability below this asks for another attempt.
    pub log_prob_threshold: Binary32,
    /// A compression ratio above this asks for another attempt.
    pub compression_ratio_threshold: Binary32,
    /// A no-speech probability above this marks the chunk as silent.
    pub no_speech_threshold: Binary32,
    /// Do not prompt the decoder with earlier output.
    pub no_context: bool,
    /// Suppress blank output.
    pub suppress_blank: bool,
    /// Suppress non-speech tokens.
    pub suppress_non_speech_tokens: bool,
    /// Text to prompt the decoder with.
    pub initial_prompt: Option<SmolStr>,
    /// Threads per inference call.
    pub n_threads: i32,
}

/// Decoder sampling strategy.
#[derive(Clone, Copy, Debug, PartialEq, Eq, Structural)]
pub enum SamplingStrategy {
    /// Take the most probable token.
    Greedy {
        /// Candidates considered per token.
        best_of: i32,
    },
    /// Beam search.
    BeamSearch {
        /// Widest beam.
        beam_size: i32,
        /// Patience factor.
        patience: Binary32,
    },
}

/// Bit pattern of 0.2.
pub const ONE_FIFTH: u32 = 0x3e4c_cccd;

/// Bit pattern of 0.6.
pub const THREE_FIFTHS: u32 = 0x3f19_999a;

/// Bit pattern of 2.4.
pub const TWELVE_FIFTHS: u32 = 0x4019_999a;

/// Bit pattern of -1.0.
pub const MINUS_ONE: u32 = 0xbf80_0000;

impl AsrParams {
    /// Auto-detected language, a beam of five with the backend's own patience,
    /// up to six attempts from temperature 0.0 in steps of 0.2, retries below a
    /// mean log-probability of -1.0 or above a compression ratio of 2.4,
    /// silence above a no-speech probability of 0.6, no prompt, one thread.
    pub open spec fn defaults() -> AsrParams {
        AsrParams {
            language_hint: None,
            strategy: SamplingStrategy::BeamSearch {
                beam_size: 5,
                patience: Binary32 { bits: MINUS_ONE },
            },
            initial_temperature: Binary32 { bits: 0 },
            temperature_increment: Binary32 { bits: ONE_FIFTH },
            max_attempts: 6,
            log_prob_threshold: Binary32 { bits: MINUS_ONE },
            compression_ratio_threshold: Binary32 { bits: TWELVE_FIFTHS },
            no_speech_threshold: Binary32 { bits: THREE_FIFTHS },
            no_context: true,
            suppress_blank: true,
            suppress_non_speech_tokens: false,
            initial_prompt: None,
            n_threads: 1,
        }
    }
}

impl Default for AsrParams {
    fn default() -> (params: AsrParams)
        ensures
            params == AsrParams::defaults(),
    {
        AsrParams {
            language_hint: None,
            strategy: SamplingStrategy::BeamSearch {
                beam_size: 5,
                patience: Binary32::from_bits(MINUS_ONE),
            },
            initial_temperature: Binary32::zero(),
            temperature_increment: Binary32::from_bits(ONE_FIFTH),
            max_attempts: 6,
            log_prob_threshold: Binary32::from_bits(MINUS_ONE),
            compression_ratio_threshold: Binary32::from_bits(TWELVE_FIFTHS),
            no_speech_threshold: Binary32::from_bits(THREE_FIFTHS),
            no_context: true,
            suppress_blank: true,
            suppress_non_speech_tokens: false,
            initial_prompt: None,
            n_threads: 1,
        }
    }
}

impl Clone for AsrParams {
    fn clone(&self) -> (copy: AsrParams)
        ensures
            copy == *self,
    {
        AsrParams {
            language_hint: match &self.language_hint {
                Some(lang) => Some(lang.clone()),
                None => None,
            },
            strategy: self.strategy,
            initial_temperature: self.initial_temperature,
            temperature_increment: self.temperature_increment,
            max_attempts: self.max_attempts,
            log_prob_threshold: self.log_prob_threshold,
            compression_ratio_threshold: self.compression_ratio_threshold,
            no_speech_threshold: self.no_speech_threshold,
            no_context: self.no_context,
            suppress_blank: self.suppress_blank,
            suppress_non_speech_tokens: self.suppress_non_speech_tokens,
            initial_prompt: match &self.initial_prompt {
                Some(prompt) => Some(prompt.clone()),
                None => None,
            },
            n_threads: self.n_threads,
        }
    }
}

/// What recognition of a chunk gave.
#[derive(Debug)]
pub struct AsrResult {
    /// Transcribed text, verbatim.
    pub text: SmolStr,
    /// Detected or given language.
    pub language: Lang,
    /// Mean log-probability over the emitted tokens.
    pub avg_logprob: Binary32,
    /// No-speech probability.
    pub no_speech_prob: Binary32,
    /// Temperature of the accepted attempt.
    pub temperature: Binary32,
}

impl Clone for AsrResult {
    fn clone(&self) -> (copy: AsrResult)
        ensures
            copy == *self,
    {
        AsrResult {
            text: self.text.clone(),
            language: self.language.clone(),
            avg_logprob: self.avg_logprob,
            no_speech_prob: self.no_speech_prob,
            temperature: self.temperature,
        }
    }
}

/// What alignment of a chunk gave. No words is a valid result.
#[derive(Debug)]
pub struct AlignmentResult {
    /// The aligned words, in order.
    pub words: Vec<Word>,
}

impl View for AlignmentResult {
    type V = Seq<types::WordView>;

    open spec fn view(&self) -> Seq<types::WordView> {
        types::word_views(self.words@)
    }
}

impl AlignmentResult {
    /// A result of these words.
    pub fn new(words: Vec<Word>) -> (result: AlignmentResult)
        ensures
            result.words == words,
    {
        AlignmentResult { words }
    }

    /// The aligned words, in order.
    pub fn words(&self) -> (words: &[Word])
        ensures
            words@ == self.words@,
    {
        self.words.as_slice()
    }

    /// The aligned words, in order, consuming the result.
    pub fn into_words(self) -> (words: Vec<Word>)
        ensures
            words == self.words,
    {
        self.words
    }
}

impl Clone for AlignmentResult {
    fn clone(&self) -> (copy: AlignmentResult)
        ensures
            copy.words@ == self.words@,
            copy@ == self@,
    {
        let words: Vec<Word> = self.words.clone();
        assert(words@ =~= self.words@);
        AlignmentResult { words }
    }
}

/// The audio of a chunk, shared between the state machine and its driver.
pub type ChunkAudio = Arc<Vec<Binary32>>;

/// A directive to the driver.
#[derive(Debug)]
pub enum Command {
    /// Recognise the chunk's speech.
    RunAsr {
        /// Chunk identity.
        chunk_id: ChunkId,
        /// Chunk audio.
        samples: ChunkAudio,
        /// Sample rate of the audio.
        sample_rate: u32,
        /// Recognition parameters.
        params: AsrParams,
    },
    /// Align the chunk's text with its audio.
    RunAlignment {
        /// Chunk identity.
        chunk_id: ChunkId,
        /// Chunk audio.
        samples: ChunkAudio,
        /// The speech in the chunk, in the output timebase.
        sub_segments: Vec<TimeRange>,
        /// Transcribed text.
        text: SmolStr,
        /// Language of the text.
        language: Lang,
    },
}

/// What a [`Command`] says.
pub enum CommandView {
    /// Recognise the chunk's speech.
    RunAsr {
        /// Chunk identity.
        chunk_id: ChunkId,
        /// Chunk audio.
        samples: Seq<Binary32>,
        /// Sample rate of the audio.
        sample_rate: u32,
        /// Recognition parameters.
        params: AsrParams,
    },
    /// Align the chunk's text with its audio.
    RunAlignment {
        /// Chunk identity.
        chunk_id: ChunkId,
        /// Chunk audio.
        samples: Seq<Binary32>,
        /// The speech in the chunk, in the output timebase.
        sub_segments: Seq<TimeRange>,
        /// Transcribed text.
        text: Seq<char>,
        /// Language of the text.
        language: Lang,
    },
}

impl View for Command {
    type V = CommandView;

    open spec fn view(&self) -> CommandView {
        match self {
            Command::RunAsr { chunk_id, samples, sample_rate, params } => CommandView::RunAsr {
                chunk_id: *chunk_id,
                samples: samples@,
                sample_rate: *sample_rate,
                params: *params,
            },
            Command::RunAlignment { chunk_id, samples, sub_segments, text, language } => {
                CommandView::RunAlignment {
                    chunk_id: *chunk_id,
                    samples: samples@,
                    sub_segments: sub_segments@,
                    text: text::smol_str_chars(*text),
                    language: *language,
                }
            },
        }
    }
}

/// Recognition parameters that replace the driver's own for the chunks of one
/// packet, field by field.
#[derive(Debug)]
pub struct AsrParamsOverride {
    /// Replaces the language hint.
    pub language_hint: Option<Option<Lang>>,
    /// Replaces the sampling strategy.
    pub strategy: Option<SamplingStrategy>,
    /// Replaces the initial temperature.
    pub initial_temperature: Option<Binary32>,
    /// Replaces the initial prompt.
    pub initial_prompt: Option<Option<SmolStr>>,
}

impl Default for AsrParamsOverride {
    fn default() -> (none: AsrParamsOverride)
        ensures
            none == (AsrParamsOverride {
                language_hint: None,
                strategy: None,
                initial_temperature: None,
                initial_prompt: None,
            }),
    {
        AsrParamsOverride {
            language_hint: None,
            strategy: None,
            initial_temperature: None,
            initial_prompt: None,
        }
    }
}

impl Clone for AsrParamsOverride {
    fn clone(&self) -> (copy: AsrParamsOverride)
        ensures
            copy == *self,
    {
        AsrParamsOverride {
            language_hint: match &self.language_hint {
                Some(Some(lang)) => Some(Some(lang.clone())),
                Some(None) => Some(None),
                None => None,
            },
            strategy: self.strategy,
            initial_temperature: self.initial_temperature,
            initial_prompt: match &self.initial_prompt {
                Some(Some(prompt)) => Some(Some(prompt.clone())),
                Some(None) => Some(None),
                None => None,
            },
        }
    }
}

/// Calls `Arc::clone`, which gives another handle to the same audio.
#[verifier::external_body]
pub(crate) fn share_audio(audio: &ChunkAudio) -> (shared: ChunkAudio)
    ensures
        shared == *audio,
{
    Arc::clone(audio)
}

} // verus!
