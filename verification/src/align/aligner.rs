//! What the library knows of an aligner: its language, frame geometry and
//! blank token. The model itself is the driver's.

use tokenizers::Tokenizer;
use vstd::prelude::*;
use vstd::string::StringExecFns;

use crate::lang::Lang;
use crate::time;

verus! {

/// Declares `tokenizers::Tokenizer`, which maps tokens to vocabulary ids.
#[verifier::external_type_specification]
#[verifier::external_body]
pub struct ExTokenizer(tokenizers::Tokenizer);

/// The tokens that a tokenizer knows and the id of each: added tokens first,
/// then those of its model.
pub uninterp spec fn vocabulary(tokenizer: Tokenizer) -> Map<Seq<char>, u32>;

/// Calls `Tokenizer::token_to_id`, which looks a token up among the added
/// tokens and then in the model's vocabulary.
#[verifier::external_body]
fn token_to_id(tokenizer: &Tokenizer, token: &str) -> (id: Option<u32>)
    ensures
        id == if vocabulary(*tokenizer).contains_key(token@) {
            Some(vocabulary(*tokenizer)[token@])
        } else {
            None
        },
{
    tokenizer.token_to_id(token)
}

/// Why a driver could not set up its part.
#[derive(Debug)]
pub enum RunnerError {
    /// An aligner could not be loaded.
    AlignerLoad {
        /// Description.
        message: String,
    },
}

/// The id of a token, if the vocabulary holds it.
pub open spec fn id_of(vocabulary: Map<Seq<char>, u32>, token: Seq<char>) -> Option<u32> {
    if vocabulary.contains_key(token) {
        Some(vocabulary[token])
    } else {
        None
    }
}

/// The first of three ids that is there.
pub open spec fn first_known(a: Option<u32>, b: Option<u32>, c: Option<u32>) -> Option<u32> {
    match (a, b) {
        (Some(id), _) => Some(id),
        (None, Some(id)) => Some(id),
        (None, None) => c,
    }
}

/// The blank token among the ids of the padding and blank tokens: by
/// convention the padding token is the blank one.
pub fn choose_blank_token(pad: Option<u32>, bracketed_pad: Option<u32>, blank: Option<u32>) -> (id:
    Option<u32>)
    ensures
        id == first_known(pad, bracketed_pad, blank),
{
    match pad {
        Some(id) => Some(id),
        None => match bracketed_pad {
            Some(id) => Some(id),
            None => blank,
        },
    }
}

/// The blank token of a vocabulary: `<pad>`, else `[PAD]`, else `<blank>`.
pub open spec fn blank_token_of(vocabulary: Map<Seq<char>, u32>) -> Option<u32> {
    first_known(
        id_of(vocabulary, "<pad>"@),
        id_of(vocabulary, "[PAD]"@),
        id_of(vocabulary, "<blank>"@),
    )
}

/// The padding token is the blank one wherever a vocabulary has one, in angle
/// brackets before square ones; only without either does a token of that name
/// count. There is no blank token exactly if there is none of the three.
pub proof fn padding_tokens_are_blank(vocabulary: Map<Seq<char>, u32>)
    ensures
        vocabulary.contains_key("<pad>"@) ==> blank_token_of(vocabulary) == Some(
            vocabulary["<pad>"@],
        ),
        !vocabulary.contains_key("<pad>"@) && vocabulary.contains_key("[PAD]"@) ==> blank_token_of(
            vocabulary,
        ) == Some(vocabulary["[PAD]"@]),
        !vocabulary.contains_key("<pad>"@) && !vocabulary.contains_key("[PAD]"@)
            && vocabulary.contains_key("<blank>"@) ==> blank_token_of(vocabulary) == Some(
            vocabulary["<blank>"@],
        ),
        blank_token_of(vocabulary) is None <==> !vocabulary.contains_key("<pad>"@)
            && !vocabulary.contains_key("[PAD]"@) && !vocabulary.contains_key("<blank>"@),
{
}

/// The id of the blank token of a tokenizer.
pub fn detect_blank_token_id(tokenizer: &Tokenizer) -> (id: Option<u32>)
    ensures
        id == blank_token_of(vocabulary(*tokenizer)),
{
    choose_blank_token(
        token_to_id(tokenizer, "<pad>"),
        token_to_id(tokenizer, "[PAD]"),
        token_to_id(tokenizer, "<blank>"),
    )
}

/// An aligner's parameters.
#[derive(Debug)]
pub struct Aligner {
    language: Lang,
    sample_rate: u32,
    hop_samples: u32,
    blank_token_id: u32,
}

/// What an [`Aligner`] says.
#[verifier::ext_equal]
pub struct AlignerView {
    /// Its language.
    pub language: Lang,
    /// Sample rate of the audio that its model takes.
    pub sample_rate: u32,
    /// Samples per frame of its model.
    pub hop_samples: u32,
    /// Vocabulary id of the blank token.
    pub blank_token_id: u32,
}

impl View for Aligner {
    type V = AlignerView;

    closed spec fn view(&self) -> AlignerView {
        AlignerView {
            language: self.language,
            sample_rate: self.sample_rate,
            hop_samples: self.hop_samples,
            blank_token_id: self.blank_token_id,
        }
    }
}

/// Samples per frame by default: 20 ms.
pub const DEFAULT_HOP_SAMPLES: u32 = 320;

/// The parameters of an aligner as it is loaded.
pub open spec fn loaded(language: Lang, blank_token_id: u32) -> AlignerView {
    AlignerView {
        language,
        sample_rate: time::SAMPLE_RATE_HZ,
        hop_samples: DEFAULT_HOP_SAMPLES,
        blank_token_id,
    }
}

/// Whatever its language and vocabulary, an aligner is loaded for audio at 16 kHz
/// and for frames of 20 ms.
pub proof fn aligners_are_loaded_for_frames_of_twenty_ms(language: Lang, blank_token_id: u32)
    ensures
        loaded(language, blank_token_id).language == language,
        loaded(language, blank_token_id).blank_token_id == blank_token_id,
        loaded(language, blank_token_id).sample_rate == 16_000,
        loaded(language, blank_token_id).hop_samples * 1_000 == 20 * loaded(
            language,
            blank_token_id,
        ).sample_rate,
{
}

impl Aligner {
    /// Parameters of an aligner whose blank token is `blank_token_id`; without
    /// one it cannot be loaded.
    pub fn from_blank_token(language: Lang, blank_token_id: Option<u32>) -> (result: Result<
        Aligner,
        RunnerError,
    >)
        ensures
            match result {
                Ok(aligner) => blank_token_id matches Some(id) && aligner@ == loaded(language, id),
                Err(error) => blank_token_id is None && (
                error matches RunnerError::AlignerLoad { message } && message@
                    == "tokenizer has no <pad> / [PAD] entry; cannot determine CTC blank token"@),
            },
    {
        match blank_token_id {
            Some(id) => Ok(
                Aligner {
                    language,
                    sample_rate: time::SAMPLE_RATE_HZ,
                    hop_samples: DEFAULT_HOP_SAMPLES,
                    blank_token_id: id,
                },
            ),
            None => Err(
                RunnerError::AlignerLoad {
                    message: String::from_str(
                        "tokenizer has no <pad> / [PAD] entry; cannot determine CTC blank token",
                    ),
                },
            ),
        }
    }

    /// Parameters of an aligner with the given tokenizer.
    pub fn from_tokenizer(language: Lang, tokenizer: &Tokenizer) -> (result: Result<
        Aligner,
        RunnerError,
    >)
        ensures
            match result {
                Ok(aligner) => blank_token_of(vocabulary(*tokenizer)) matches Some(id) && aligner@
                    == loaded(language, id),
                Err(error) => blank_token_of(vocabulary(*tokenizer)) is None && (
                error matches RunnerError::AlignerLoad { message } && message@
                    == "tokenizer has no <pad> / [PAD] entry; cannot determine CTC blank token"@),
            },
    {
        Aligner::from_blank_token(language, detect_blank_token_id(tokenizer))
    }

    /// Its language.
    pub fn language(&self) -> (language: &Lang)
        ensures
            *language == self@.language,
    {
        &self.language
    }

    /// Sample rate of the audio that its model takes.
    pub fn sample_rate(&self) -> (value: u32)
        ensures
            value == self@.sample_rate,
    {
        self.sample_rate
    }

    /// Samples per frame of its model.
    pub fn hop_samples(&self) -> (value: u32)
        ensures
            value == self@.hop_samples,
    {
        self.hop_samples
    }

    /// Vocabulary id of the blank token.
    pub fn blank_token_id(&self) -> (value: u32)
        ensures
            value == self@.blank_token_id,
    {
        self.blank_token_id
    }

    /// Set the sample rate.
    pub fn set_sample_rate(&mut self, value: u32)
        ensures
            final(self)@ == (AlignerView { sample_rate: value, ..old(self)@ }),
    {
        self.sample_rate = value;
    }

    /// Set the sample rate, consuming the aligner.
    pub fn with_sample_rate(self, value: u32) -> (aligner: Aligner)
        ensures
            aligner@ == (AlignerView { sample_rate: value, ..self@ }),
    {
        let mut aligner: Aligner = self;
        aligner.sample_rate = value;
        aligner
    }

    /// Set the samples per frame.
    pub fn set_hop_samples(&mut self, value: u32)
        ensures
            final(self)@ == (AlignerView { hop_samples: value, ..old(self)@ }),
    {
        self.hop_samples = value;
    }

    /// Set the samples per frame, consuming the aligner.
    pub fn with_hop_samples(self, value: u32) -> (aligner: Aligner)
        ensures
            aligner@ == (AlignerView { hop_samples: value, ..self@ }),
    {
        let mut aligner: Aligner = self;
        aligner.hop_samples = value;
        aligner
    }
}

} // verus!
