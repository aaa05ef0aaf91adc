//! From an alignment path to timed words.
//!
//! The path visits one state per frame: state `2 * i + 1` emits token `i`,
//! state `2 * k` is the blank slot before token `k`. A word's frames are those
//! where one of its tokens is emitted over speech. A blank that follows one of
//! its tokens prolongs the word, once the word was opened by an emission. Words
//! that speech does not support are dropped.
//!
//! Log-probabilities, coverage ratios and frame lengths are floating-point
//! numbers; [`words_of_path`] takes the functions that compute with them.

use vstd::prelude::*;

use crate::binary32::Binary32;
use crate::machine::command::AlignmentResult;
use crate::text;
use crate::time;
use crate::time::{TimeRange, Timebase};
use crate::types::{Word, WordView};

verus! {

/// Bit pattern of 0.5: by default a word is kept if at least half of its
/// emissions are over speech.
pub const DEFAULT_MIN_SPEECH_COVERAGE: u32 = 0x3f00_0000;

/// By default a word is kept if no silence inside it is longer than this, in
/// nanoseconds: 80 ms, which spares unvoiced consonants.
pub const DEFAULT_MAX_INTRA_SILENT_RUN: u32 = 80_000_000;

/// An alignment path.
#[derive(Debug)]
pub struct ViterbiPath {
    /// The state visited at each frame.
    pub state_per_frame: Vec<usize>,
    /// Vocabulary id of each token.
    pub tokens: Vec<u32>,
}

/// A frame that counts toward a word's score.
#[derive(Clone, Copy, Debug, PartialEq, Eq, Structural)]
pub struct Emission {
    /// The frame.
    pub frame: u32,
    /// Vocabulary id of the token emitted there.
    pub token_id: u32,
}

/// What the path says about a word.
#[derive(Debug)]
pub struct WordAccum {
    /// First frame where the word is emitted over speech.
    pub start_frame: u32,
    /// One past the last frame where the word is emitted or prolonged over
    /// speech.
    pub end_frame: u32,
    /// Number of frames where the word is emitted over speech.
    pub speech_emissions: u32,
    /// Number of frames where the word is emitted.
    pub total_emissions: u32,
    /// The frames where the word is emitted over speech, in order: those whose
    /// log-probabilities make its score.
    pub emissions: Vec<Emission>,
}

impl Clone for WordAccum {
    fn clone(&self) -> (copy: WordAccum)
        ensures
            copy@ == self@,
    {
        WordAccum {
            start_frame: self.start_frame,
            end_frame: self.end_frame,
            speech_emissions: self.speech_emissions,
            total_emissions: self.total_emissions,
            emissions: vstd::slice::slice_to_vec(self.emissions.as_slice()),
        }
    }
}

/// What a [`WordAccum`] says.
#[verifier::ext_equal]
pub struct AccumView {
    /// First frame where the word is emitted over speech.
    pub start: int,
    /// One past the last frame where it is emitted or prolonged over speech.
    pub end: int,
    /// Number of frames where it is emitted over speech.
    pub speech: int,
    /// Number of frames where it is emitted.
    pub total: int,
    /// The frames where it is emitted over speech, in order.
    pub emissions: Seq<Emission>,
}

impl View for WordAccum {
    type V = AccumView;

    open spec fn view(&self) -> AccumView {
        AccumView {
            start: self.start_frame as int,
            end: self.end_frame as int,
            speech: self.speech_emissions as int,
            total: self.total_emissions as int,
            emissions: self.emissions@,
        }
    }
}

/// A path over frames, some of them speech, and the word of each token.
pub struct Trace {
    /// The state visited at each frame.
    pub states: Seq<usize>,
    /// Vocabulary id of each token.
    pub tokens: Seq<u32>,
    /// The word that each token belongs to; `None` for a delimiter.
    pub word_of_token: Seq<Option<usize>>,
    /// Which frames are speech. Frames beyond its end count as speech.
    pub speech: Seq<bool>,
}

impl Trace {
    /// The frame is speech.
    pub open spec fn is_speech(self, t: int) -> bool {
        t < self.speech.len() ==> self.speech[t]
    }

    /// The token belongs to the word.
    pub open spec fn token_in(self, token: int, word: int) -> bool {
        &&& 0 <= token < self.word_of_token.len()
        &&& self.word_of_token[token] matches Some(w) && w == word
    }

    /// Half the state visited at a frame: the number of the token that the frame
    /// emits, or that its blank precedes.
    pub open spec fn half_state(self, t: int) -> int {
        self.states[t] as int / 2
    }

    /// A token of the word is emitted at the frame.
    pub open spec fn emits(self, word: int, t: int) -> bool {
        self.states[t] % 2 == 1 && self.token_in(self.half_state(t), word)
    }

    /// The frame is a blank that follows a token of the word.
    pub open spec fn stays(self, word: int, t: int) -> bool {
        self.states[t] % 2 == 0 && self.token_in(self.half_state(t) - 1, word)
    }

    /// A token of the word is emitted over speech at the frame.
    pub open spec fn voiced(self, word: int, t: int) -> bool {
        self.emits(word, t) && self.is_speech(t)
    }

    /// The word was emitted before the frame.
    pub open spec fn opened(self, word: int, t: int) -> bool {
        exists|s: int| 0 <= s < t && #[trigger] self.emits(word, s)
    }

    /// The word is emitted or prolonged over speech at the frame.
    pub open spec fn extends(self, word: int, t: int) -> bool {
        self.is_speech(t) && (self.emits(word, t) || self.stays(word, t) && self.opened(word, t))
    }

    /// Number of frames before `n` where the word is emitted.
    pub open spec fn emission_count(self, word: int, n: int) -> int
        decreases n,
    {
        if n <= 0 {
            0
        } else {
            self.emission_count(word, n - 1) + if self.emits(word, n - 1) {
                1int
            } else {
                0
            }
        }
    }

    /// The frames before `n` where the word is emitted over speech.
    pub open spec fn voiced_emissions(self, word: int, n: int) -> Seq<Emission>
        decreases n,
    {
        if n <= 0 {
            Seq::empty()
        } else if self.voiced(word, n - 1) {
            self.voiced_emissions(word, n - 1).push(
                Emission {
                    frame: (n - 1) as u32,
                    token_id: self.tokens[self.half_state(n - 1)],
                },
            )
        } else {
            self.voiced_emissions(word, n - 1)
        }
    }

    /// The accumulator says what the first `n` frames say about the word.
    pub open spec fn summed_up(self, word: int, n: int, a: AccumView) -> bool {
        &&& a.total == self.emission_count(word, n)
        &&& a.emissions == self.voiced_emissions(word, n)
        &&& a.speech == a.emissions.len()
        &&& if a.speech > 0 {
            &&& 0 <= a.start < n
            &&& self.voiced(word, a.start)
            &&& forall|t: int| 0 <= t < a.start ==> !#[trigger] self.voiced(word, t)
        } else {
            a.start == 0
        }
        &&& 0 <= a.end <= n
        &&& a.end > 0 ==> self.extends(word, a.end - 1)
        &&& forall|t: int| a.end <= t < n ==> !#[trigger] self.extends(word, t)
    }

    /// The slot of a word after `n` frames: empty until the word is emitted.
    pub open spec fn slot(self, word: int, n: int, slot: Option<AccumView>) -> bool {
        match slot {
            None => self.emission_count(word, n) == 0,
            Some(a) => self.emission_count(word, n) > 0 && self.summed_up(word, n, a),
        }
    }

    /// One past the last of the first `n` frames where the word is emitted or
    /// prolonged over speech; zero if there is none.
    pub open spec fn last_extended(self, word: int, n: int) -> int
        decreases n,
    {
        if n <= 0 {
            0
        } else if self.extends(word, n - 1) {
            n
        } else {
            self.last_extended(word, n - 1)
        }
    }

    /// What the first `n` frames say about the word.
    pub open spec fn accum(self, word: int, n: int) -> AccumView {
        let emissions = self.voiced_emissions(word, n);
        AccumView {
            start: if emissions.len() > 0 {
                emissions[0].frame as int
            } else {
                0
            },
            end: self.last_extended(word, n),
            speech: emissions.len() as int,
            total: self.emission_count(word, n),
            emissions,
        }
    }

    /// What the whole path says about each of the first `n_words` words; nothing
    /// about a word that is not emitted.
    pub open spec fn slots(self, n_words: int) -> Seq<Option<AccumView>> {
        let n = self.states.len() as int;
        Seq::new(
            n_words as nat,
            |word: int|
                if self.emission_count(word, n) > 0 {
                    Some(self.accum(word, n))
                } else {
                    None
                },
        )
    }

    /// Every token that is emitted for a word over speech has a vocabulary id.
    pub open spec fn ids_known(self, n_words: int) -> bool {
        forall|word: int, t: int|
            0 <= word < n_words && 0 <= t < self.states.len() && #[trigger] self.voiced(word, t)
                ==> self.half_state(t) < self.tokens.len()
    }
}

/// The slot as a view.
pub open spec fn slot_view(slot: Option<WordAccum>) -> Option<AccumView> {
    match slot {
        Some(accum) => Some(accum@),
        None => None,
    }
}

/// The slots as views.
pub open spec fn slot_views(slots: Seq<Option<WordAccum>>) -> Seq<Option<AccumView>> {
    slots.map_values(|slot: Option<WordAccum>| slot_view(slot))
}

/// What the frames say about a word is said by one accumulator only.
proof fn lemma_slot_is_determined(trace: Trace, word: int, n: int, slot: Option<AccumView>)
    requires
        0 <= n <= u32::MAX,
        trace.slot(word, n, slot),
    ensures
        slot == if trace.emission_count(word, n) > 0 {
            Some(trace.accum(word, n))
        } else {
            None
        },
{
    lemma_opened(trace, word, n);
    if let Some(a) = slot {
        lemma_last_extended(trace, word, n, a.end);
        if a.speech > 0 {
            lemma_first_emission(trace, word, n, a.start);
        }
        assert(a =~= trace.accum(word, n));
    }
}

proof fn lemma_last_extended(trace: Trace, word: int, n: int, end: int)
    requires
        0 <= end <= n,
        end > 0 ==> trace.extends(word, end - 1),
        forall|t: int| end <= t < n ==> !#[trigger] trace.extends(word, t),
    ensures
        trace.last_extended(word, n) == end,
    decreases n,
{
    if n > end {
        lemma_last_extended(trace, word, n - 1, end);
    }
}

proof fn lemma_first_emission(trace: Trace, word: int, n: int, start: int)
    requires
        0 <= start < n <= u32::MAX,
        trace.voiced(word, start),
        forall|t: int| 0 <= t < start ==> !#[trigger] trace.voiced(word, t),
    ensures
        trace.voiced_emissions(word, n).len() > 0,
        trace.voiced_emissions(word, n)[0].frame == start,
    decreases n,
{
    if n - 1 == start {
        lemma_no_emission(trace, word, start);
    } else {
        lemma_first_emission(trace, word, n - 1, start);
    }
}

proof fn lemma_no_emission(trace: Trace, word: int, n: int)
    requires
        0 <= n,
        forall|t: int| 0 <= t < n ==> !#[trigger] trace.voiced(word, t),
    ensures
        trace.voiced_emissions(word, n) == Seq::<Emission>::empty(),
    decreases n,
{
    if n > 0 {
        lemma_no_emission(trace, word, n - 1);
    }
}

proof fn lemma_opened(trace: Trace, word: int, n: int)
    requires
        0 <= n,
    ensures
        trace.emission_count(word, n) >= 0,
        trace.opened(word, n) <==> trace.emission_count(word, n) > 0,
        0 <= trace.voiced_emissions(word, n).len() <= n,
        trace.emission_count(word, n) <= n,
        trace.voiced_emissions(word, n).len() <= trace.emission_count(word, n),
        trace.voiced_emissions(word, n).len() == 0 ==> forall|t: int|
            0 <= t < n ==> !#[trigger] trace.voiced(word, t),
    decreases n,
{
    if n > 0 {
        lemma_opened(trace, word, n - 1);
        if trace.emits(word, n - 1) {
            assert(trace.opened(word, n));
        }
        if trace.opened(word, n) && !trace.emits(word, n - 1) {
            let s = choose|s: int| 0 <= s < n && #[trigger] trace.emits(word, s);
            assert(0 <= s < n - 1);
            assert(trace.opened(word, n - 1));
        }
        if trace.opened(word, n - 1) {
            let s = choose|s: int| 0 <= s < n - 1 && #[trigger] trace.emits(word, s);
            assert(trace.opened(word, n));
        }
    }
}

/// A frame that neither emits nor prolongs the word leaves its slot as it was.
proof fn lemma_untouched(trace: Trace, word: int, n: int, slot: Option<AccumView>)
    requires
        0 <= n,
        trace.slot(word, n, slot),
        !trace.emits(word, n),
        !trace.extends(word, n),
    ensures
        trace.slot(word, n + 1, slot),
{
}

/// A blank over speech prolongs an open word.
proof fn lemma_prolonged(trace: Trace, word: int, n: int, a: AccumView)
    requires
        0 <= n,
        trace.slot(word, n, Some(a)),
        trace.stays(word, n),
        trace.is_speech(n),
    ensures
        trace.slot(word, n + 1, Some(AccumView { end: n + 1, ..a })),
{
    lemma_opened(trace, word, n);
    assert(trace.extends(word, n));
}

/// An emission over silence counts toward the word's total only.
proof fn lemma_silent_emission(trace: Trace, word: int, n: int, slot: Option<AccumView>)
    requires
        0 <= n,
        trace.slot(word, n, slot),
        trace.emits(word, n),
        !trace.is_speech(n),
    ensures
        trace.slot(word, n + 1, Some(AccumView { total: opened_slot(slot).total + 1, ..opened_slot(slot) })),
{
    lemma_opened(trace, word, n);
    lemma_fresh_slot(trace, word, n, slot);
}

/// An emission over speech counts toward the word's total, frames and score.
proof fn lemma_voiced_emission(trace: Trace, word: int, n: int, slot: Option<AccumView>)
    requires
        0 <= n < u32::MAX,
        trace.slot(word, n, slot),
        trace.voiced(word, n),
    ensures
        ({
            let a = opened_slot(slot);
            trace.slot(
                word,
                n + 1,
                Some(
                    AccumView {
                        start: if a.speech == 0 {
                            n
                        } else {
                            a.start
                        },
                        end: n + 1,
                        speech: a.speech + 1,
                        total: a.total + 1,
                        emissions: a.emissions.push(
                            Emission {
                                frame: n as u32,
                                token_id: trace.tokens[trace.half_state(n)],
                            },
                        ),
                    },
                ),
            )
        }),
{
    lemma_opened(trace, word, n);
    lemma_fresh_slot(trace, word, n, slot);
    assert(trace.extends(word, n));
}

/// The slot's accumulator, or an empty one.
pub open spec fn opened_slot(slot: Option<AccumView>) -> AccumView {
    match slot {
        Some(a) => a,
        None => AccumView { start: 0, end: 0, speech: 0, total: 0, emissions: Seq::empty() },
    }
}

proof fn lemma_fresh_slot(trace: Trace, word: int, n: int, slot: Option<AccumView>)
    requires
        0 <= n,
        trace.slot(word, n, slot),
    ensures
        trace.summed_up(word, n, opened_slot(slot)),
{
    lemma_opened(trace, word, n);
    if slot is None {
        assert(trace.voiced_emissions(word, n) =~= Seq::empty());
        assert forall|t: int| 0 <= t < n implies !#[trigger] trace.extends(word, t) by {
            if trace.emits(word, t) {
                assert(trace.opened(word, n));
            }
            if trace.opened(word, t) {
                let s = choose|s: int| 0 <= s < t && #[trigger] trace.emits(word, s);
                assert(trace.opened(word, n));
            }
        }
    }
}

/// A path, the words of its tokens and the speech among its frames.
pub open spec fn trace_of(
    path: ViterbiPath,
    word_of_token: Seq<Option<usize>>,
    speech: Seq<bool>,
) -> Trace {
    Trace { states: path.state_per_frame@, tokens: path.tokens@, word_of_token, speech }
}

/// A trace holds the whole path, the word of every token and every known frame.
pub proof fn traces_hold_the_whole_path(
    path: ViterbiPath,
    word_of_token: Seq<Option<usize>>,
    speech: Seq<bool>,
)
    ensures
        trace_of(path, word_of_token, speech).states == path.state_per_frame@,
        trace_of(path, word_of_token, speech).tokens == path.tokens@,
        trace_of(path, word_of_token, speech).word_of_token == word_of_token,
        trace_of(path, word_of_token, speech).speech == speech,
{
}

/// Slots are viewed one by one, and as a whole.
pub proof fn slots_are_viewed_one_by_one(slots: Seq<Option<WordAccum>>, word: int)
    requires
        0 <= word < slots.len(),
    ensures
        slot_views(slots).len() == slots.len(),
        slot_views(slots)[word] is Some <==> slots[word] is Some,
        slots[word] matches Some(accum) ==> {
            let a = slot_views(slots)[word]->0;
            &&& a.start == accum.start_frame
            &&& a.end == accum.end_frame
            &&& a.speech == accum.speech_emissions
            &&& a.total == accum.total_emissions
            &&& a.emissions == accum.emissions@
        },
{
}

/// The path rests on a blank that follows a token of the word.
fn visit_blank(
    per_word: &mut Vec<Option<WordAccum>>,
    word: usize,
    t: usize,
    is_speech: bool,
    Ghost(trace): Ghost<Trace>,
)
    requires
        word < old(per_word)@.len(),
        t < u32::MAX,
        trace.slot(word as int, t as int, slot_view(old(per_word)@[word as int])),
        trace.stays(word as int, t as int),
        is_speech == trace.is_speech(t as int),
    ensures
        final(per_word)@.len() == old(per_word)@.len(),
        forall|i: int|
            0 <= i < old(per_word)@.len() && i != word ==> (#[trigger] final(per_word)@[i]) == old(
                per_word,
            )@[i],
        trace.slot(word as int, t + 1, slot_view(final(per_word)@[word as int])),
{
    let ghost before = slot_view(per_word@[word as int]);
    proof {
        lemma_opened(trace, word as int, t as int);
        if is_speech && before is Some {
            lemma_prolonged(trace, word as int, t as int, before->0);
        } else {
            lemma_untouched(trace, word as int, t as int, before);
        }
    }
    if is_speech {
        if let Some(entry) = per_word[word].take() {
            per_word[word] = Some(WordAccum { end_frame: (t + 1) as u32, ..entry });
        }
    }
}

/// The path emits a token of the word.
fn visit_token(
    path: &ViterbiPath,
    per_word: &mut Vec<Option<WordAccum>>,
    word: usize,
    t: usize,
    is_speech: bool,
    Ghost(trace): Ghost<Trace>,
)
    requires
        word < old(per_word)@.len(),
        t < path.state_per_frame@.len() < u32::MAX,
        trace.states == path.state_per_frame@,
        trace.tokens == path.tokens@,
        trace.slot(word as int, t as int, slot_view(old(per_word)@[word as int])),
        trace.emits(word as int, t as int),
        is_speech == trace.is_speech(t as int),
        is_speech ==> trace.half_state(t as int) < trace.tokens.len(),
    ensures
        final(per_word)@.len() == old(per_word)@.len(),
        forall|i: int|
            0 <= i < old(per_word)@.len() && i != word ==> (#[trigger] final(per_word)@[i]) == old(
                per_word,
            )@[i],
        trace.slot(word as int, t + 1, slot_view(final(per_word)@[word as int])),
{
    let ghost before = slot_view(per_word@[word as int]);
    proof {
        lemma_opened(trace, word as int, t as int);
        lemma_fresh_slot(trace, word as int, t as int, before);
        if is_speech {
            lemma_voiced_emission(trace, word as int, t as int, before);
        } else {
            lemma_silent_emission(trace, word as int, t as int, before);
        }
    }
    let mut entry: WordAccum = match per_word[word].take() {
        Some(entry) => entry,
        None => WordAccum {
            start_frame: 0,
            end_frame: 0,
            speech_emissions: 0,
            total_emissions: 0,
            emissions: Vec::new(),
        },
    };
    assert(entry@ =~= opened_slot(before));
    entry.total_emissions += 1;
    if is_speech {
        let token_id: u32 = path.tokens[path.state_per_frame[t] / 2];
        if entry.speech_emissions == 0 {
            entry.start_frame = t as u32;
        }
        entry.end_frame = (t + 1) as u32;
        entry.emissions.push(Emission { frame: t as u32, token_id });
        entry.speech_emissions += 1;
    }
    per_word[word] = Some(entry);
}

/// Sum up, for each word, what the path says about it.
pub fn accumulate_per_word(
    path: &ViterbiPath,
    word_idx_per_token: &[Option<usize>],
    n_words: usize,
    speech_frames: &[bool],
) -> (per_word: Vec<Option<WordAccum>>)
    requires
        path.state_per_frame@.len() < u32::MAX,
        trace_of(*path, word_idx_per_token@, speech_frames@).ids_known(n_words as int),
    ensures
        per_word@.len() == n_words,
        forall|word: int|
            0 <= word < n_words ==> trace_of(*path, word_idx_per_token@, speech_frames@).slot(
                word,
                path.state_per_frame@.len() as int,
                slot_view(#[trigger] per_word@[word]),
            ),
        slot_views(per_word@) == trace_of(*path, word_idx_per_token@, speech_frames@).slots(
            n_words as int,
        ),
{
    let ghost trace = trace_of(*path, word_idx_per_token@, speech_frames@);
    let mut per_word: Vec<Option<WordAccum>> = Vec::new();
    let mut i: usize = 0;
    while i < n_words
        invariant
            i <= n_words,
            per_word@.len() == i,
            forall|word: int| 0 <= word < i ==> (#[trigger] per_word@[word]) is None,
        decreases n_words - i,
    {
        per_word.push(None);
        i += 1;
    }
    let mut t: usize = 0;
    while t < path.state_per_frame.len()
        invariant
            t <= path.state_per_frame@.len() < u32::MAX,
            trace == trace_of(*path, word_idx_per_token@, speech_frames@),
            trace.ids_known(n_words as int),
            per_word@.len() == n_words,
            forall|word: int|
                0 <= word < n_words ==> trace.slot(
                    word,
                    t as int,
                    slot_view(#[trigger] per_word@[word]),
                ),
        decreases path.state_per_frame@.len() - t,
    {
        let state: usize = path.state_per_frame[t];
        let is_speech: bool = if t < speech_frames.len() {
            speech_frames[t]
        } else {
            true
        };
        let blank: bool = state % 2 == 0;
        let token: Option<usize> = if !blank {
            Some(state / 2)
        } else if state >= 2 {
            Some(state / 2 - 1)
        } else {
            None
        };
        let word: Option<usize> = match token {
            Some(token_idx) => if token_idx < word_idx_per_token.len() {
                word_idx_per_token[token_idx]
            } else {
                None
            },
            None => None,
        };
        let ghost before = per_word@;
        proof {
            assert forall|w: int| 0 <= w < n_words && word != Some(w as usize) implies trace.slot(
                w,
                t + 1,
                slot_view(#[trigger] before[w]),
            ) by {
                assert(trace.slot(w, t as int, slot_view(before[w])));
                lemma_untouched(trace, w, t as int, slot_view(before[w]));
            }
        }
        if let Some(w) = word {
            if w < n_words {
                assert(trace.slot(w as int, t as int, slot_view(before[w as int])));
                if blank {
                    visit_blank(&mut per_word, w, t, is_speech, Ghost(trace));
                } else {
                    assert(is_speech ==> trace.voiced(w as int, t as int));
                    visit_token(path, &mut per_word, w, t, is_speech, Ghost(trace));
                }
            }
        }
        t += 1;
    }
    proof {
        assert forall|word: int| 0 <= word < n_words implies slot_views(per_word@)[word]
            == trace.slots(n_words as int)[word] by {
            assert(slot_views(per_word@)[word] == slot_view(per_word@[word]));
            lemma_slot_is_determined(trace, word, t as int, slot_view(per_word@[word]));
        }
        assert(slot_views(per_word@) =~= trace.slots(n_words as int));
    }
    per_word
}

/// A frame in an odd state emits the token numbered by half of it, rounded down.
/// A word has a slot exactly if one of its tokens is emitted somewhere, and the
/// slot counts the frames where that is so.
pub proof fn words_are_counted_where_they_are_emitted(trace: Trace, n_words: int, word: usize)
    requires
        word < n_words,
    ensures
        ({
            let slot = trace.slots(n_words)[word as int];
            let frames = Set::new(
                |t: int|
                    {
                        &&& 0 <= t < trace.states.len()
                        &&& trace.states[t] % 2 == 1
                        &&& (trace.states[t] - 1) / 2 < trace.word_of_token.len()
                        &&& trace.word_of_token[(trace.states[t] - 1) / 2] == Some(word)
                    },
            );
            &&& frames.finite()
            &&& slot is Some <==> frames.len() > 0
            &&& slot matches Some(a) ==> a.total == frames.len()
        }),
{
    let w = word as int;
    let n = trace.states.len() as int;
    lemma_emissions_counted(trace, w, n);
    assert(Set::new(
        |t: int|
            {
                &&& 0 <= t < trace.states.len()
                &&& trace.states[t] % 2 == 1
                &&& (trace.states[t] - 1) / 2 < trace.word_of_token.len()
                &&& trace.word_of_token[(trace.states[t] - 1) / 2] == Some(word)
            },
    ) =~= Set::new(|t: int| 0 <= t < n && trace.emits(w, t)));
}

/// The slot of a word lists the frames where one of its tokens is emitted over
/// speech, all of them, in order, with the vocabulary id of that token, and the
/// word starts at the first of them. Frames beyond the known ones are speech.
pub proof fn emissions_over_speech_are_listed(trace: Trace, n_words: int, word: usize)
    requires
        word < n_words,
        trace.states.len() < u32::MAX,
        trace.slots(n_words)[word as int] is Some,
    ensures
        ({
            let a = trace.slots(n_words)[word as int]->0;
            let voiced = |t: int|
                {
                    let token = (trace.states[t] - 1) / 2;
                    &&& trace.states[t] % 2 == 1
                    &&& token < trace.word_of_token.len()
                    &&& trace.word_of_token[token] == Some(word)
                    &&& t >= trace.speech.len() || trace.speech[t]
                };
            &&& a.speech == a.emissions.len()
            &&& forall|i: int|
                0 <= i < a.emissions.len() ==> {
                    let t = (#[trigger] a.emissions[i]).frame as int;
                    &&& 0 <= t < trace.states.len()
                    &&& voiced(t)
                    &&& (trace.states[t] - 1) / 2 < trace.tokens.len() ==> a.emissions[i].token_id
                        == trace.tokens[(trace.states[t] - 1) / 2]
                }
            &&& forall|i: int, j: int|
                0 <= i < j < a.emissions.len() ==> (#[trigger] a.emissions[i]).frame < (
                #[trigger] a.emissions[j]).frame
            &&& forall|t: int|
                0 <= t < trace.states.len() && #[trigger] voiced(t) ==> exists|i: int|
                    0 <= i < a.emissions.len() && (#[trigger] a.emissions[i]).frame == t
            &&& a.emissions.len() > 0 ==> a.start == a.emissions[0].frame
            &&& a.emissions.len() == 0 ==> a.start == 0
        }),
{
    let w = word as int;
    let n = trace.states.len() as int;
    lemma_emissions_listed(trace, w, n);
    let a = trace.slots(n_words)[w]->0;
    let voiced = |t: int|
        {
            let token = (trace.states[t] - 1) / 2;
            &&& trace.states[t] % 2 == 1
            &&& token < trace.word_of_token.len()
            &&& trace.word_of_token[token] == Some(word)
            &&& t >= trace.speech.len() || trace.speech[t]
        };
    assert forall|t: int| 0 <= t < n implies (#[trigger] voiced(t) <==> trace.voiced(w, t)) by {}
    assert forall|i: int| 0 <= i < a.emissions.len() implies {
        let t = (#[trigger] a.emissions[i]).frame as int;
        &&& 0 <= t < trace.states.len()
        &&& voiced(t)
    } by {
        let t = a.emissions[i].frame as int;
        assert(trace.voiced(w, t));
    }
    assert forall|t: int| 0 <= t < n && #[trigger] voiced(t) implies exists|i: int|
        0 <= i < a.emissions.len() && (#[trigger] a.emissions[i]).frame == t by {
        assert(trace.voiced(w, t));
    }
}

/// A word ends behind the last frame over speech that belongs to it: one that
/// emits one of its tokens, or, once the word was emitted, one in an even state
/// that rests behind one of its tokens.
pub proof fn words_end_where_they_last_sound(trace: Trace, n_words: int, word: usize)
    requires
        word < n_words,
        trace.slots(n_words)[word as int] is Some,
    ensures
        ({
            let end = trace.slots(n_words)[word as int]->0.end;
            let emits = |t: int|
                {
                    let token = (trace.states[t] - 1) / 2;
                    &&& trace.states[t] % 2 == 1
                    &&& token < trace.word_of_token.len()
                    &&& trace.word_of_token[token] == Some(word)
                };
            let rests = |t: int|
                {
                    let token = trace.states[t] / 2 - 1;
                    &&& trace.states[t] % 2 == 0
                    &&& 0 <= token < trace.word_of_token.len()
                    &&& trace.word_of_token[token] == Some(word)
                    &&& exists|s: int| 0 <= s < t && #[trigger] emits(s)
                };
            &&& 0 <= end <= trace.states.len()
            &&& end > 0 ==> (emits(end - 1) || rests(end - 1)) && (end - 1 >= trace.speech.len()
                || trace.speech[end - 1])
            &&& forall|t: int|
                end <= t < trace.states.len() && (t >= trace.speech.len() || trace.speech[t])
                    ==> !#[trigger] emits(t) && !rests(t)
        }),
{
    let w = word as int;
    let n = trace.states.len() as int;
    let end = trace.slots(n_words)[w]->0.end;
    lemma_last_extended_is_last(trace, w, n);
    let emits = |t: int|
        {
            let token = (trace.states[t] - 1) / 2;
            &&& trace.states[t] % 2 == 1
            &&& token < trace.word_of_token.len()
            &&& trace.word_of_token[token] == Some(word)
        };
    let rests = |t: int|
        {
            let token = trace.states[t] / 2 - 1;
            &&& trace.states[t] % 2 == 0
            &&& 0 <= token < trace.word_of_token.len()
            &&& trace.word_of_token[token] == Some(word)
            &&& exists|s: int| 0 <= s < t && #[trigger] emits(s)
        };
    assert forall|t: int| 0 <= t < n implies (#[trigger] emits(t) <==> trace.emits(w, t)) by {}
    assert forall|t: int| 0 <= t < n implies (trace.opened(w, t) <==> exists|s: int|
        0 <= s < t && #[trigger] emits(s)) by {
        if trace.opened(w, t) {
            let s = choose|s: int| 0 <= s < t && #[trigger] trace.emits(w, s);
            assert(emits(s));
        }
        if exists|s: int| 0 <= s < t && #[trigger] emits(s) {
            let s = choose|s: int| 0 <= s < t && #[trigger] emits(s);
            assert(trace.emits(w, s));
        }
    }
    assert forall|t: int| 0 <= t < n implies (trace.extends(w, t) <==> (#[trigger] emits(t)
        || rests(t)) && (t >= trace.speech.len() || trace.speech[t])) by {
        assert(trace.opened(w, t) <==> exists|s: int| 0 <= s < t && #[trigger] emits(s));
        assert(emits(t) <==> trace.emits(w, t));
    }
    if end > 0 {
        assert(trace.extends(w, end - 1));
        assert(emits(end - 1) || rests(end - 1));
    }
    assert forall|t: int|
        end <= t < n && (t >= trace.speech.len() || trace.speech[t]) implies !#[trigger] emits(t)
        && !rests(t) by {
        assert(!trace.extends(w, t));
    }
}

proof fn lemma_emissions_counted(trace: Trace, word: int, n: int)
    requires
        0 <= n,
    ensures
        Set::new(|t: int| 0 <= t < n && trace.emits(word, t)).finite(),
        Set::new(|t: int| 0 <= t < n && trace.emits(word, t)).len() == trace.emission_count(
            word,
            n,
        ),
    decreases n,
{
    let frames = Set::new(|t: int| 0 <= t < n && trace.emits(word, t));
    if n == 0 {
        assert(frames =~= Set::empty());
    } else {
        lemma_emissions_counted(trace, word, n - 1);
        let before = Set::new(|t: int| 0 <= t < n - 1 && trace.emits(word, t));
        if trace.emits(word, n - 1) {
            assert(frames =~= before.insert(n - 1));
        } else {
            assert(frames =~= before);
        }
    }
}

proof fn lemma_emissions_listed(trace: Trace, word: int, n: int)
    requires
        0 <= n <= u32::MAX,
    ensures
        ({
            let emissions = trace.voiced_emissions(word, n);
            &&& forall|i: int|
                0 <= i < emissions.len() ==> {
                    let t = (#[trigger] emissions[i]).frame as int;
                    &&& 0 <= t < n
                    &&& trace.voiced(word, t)
                    &&& emissions[i].token_id == trace.tokens[trace.half_state(t)]
                }
            &&& forall|i: int, j: int|
                0 <= i < j < emissions.len() ==> (#[trigger] emissions[i]).frame < (
                #[trigger] emissions[j]).frame
            &&& forall|t: int|
                0 <= t < n && #[trigger] trace.voiced(word, t) ==> exists|i: int|
                    0 <= i < emissions.len() && (#[trigger] emissions[i]).frame == t
        }),
    decreases n,
{
    if n > 0 {
        lemma_emissions_listed(trace, word, n - 1);
        let before = trace.voiced_emissions(word, n - 1);
        let emissions = trace.voiced_emissions(word, n);
        assert forall|i: int| 0 <= i < before.len() implies emissions[i] == before[i] by {}
        assert forall|t: int| 0 <= t < n && #[trigger] trace.voiced(word, t) implies exists|i: int|
            0 <= i < emissions.len() && (#[trigger] emissions[i]).frame == t by {
            if t == n - 1 {
                assert(emissions[before.len() as int].frame == t);
            } else {
                let i = choose|i: int| 0 <= i < before.len() && (#[trigger] before[i]).frame == t;
                assert(emissions[i].frame == t);
            }
        }
    }
}

proof fn lemma_last_extended_is_last(trace: Trace, word: int, n: int)
    requires
        0 <= n,
    ensures
        0 <= trace.last_extended(word, n) <= n,
        trace.last_extended(word, n) > 0 ==> trace.extends(
            word,
            trace.last_extended(word, n) - 1,
        ),
        forall|t: int|
            trace.last_extended(word, n) <= t < n ==> !#[trigger] trace.extends(word, t),
    decreases n,
{
    if n > 0 && !trace.extends(word, n - 1) {
        lemma_last_extended_is_last(trace, word, n - 1);
    }
}

/// A word is kept, unchanged, exactly if it is emitted over speech, enough of
/// it is, and speech recurs in it: of any frames in a row inside its span, one
/// more than the tolerated number, at least one is speech. A span that reaches
/// beyond the known frames passes for that.
pub proof fn kept_words_are_supported_by_speech(
    slots: Seq<Option<AccumView>>,
    covered: Seq<bool>,
    speech: Seq<bool>,
    limit: int,
    word: int,
)
    requires
        0 <= word < slots.len(),
        0 <= limit,
        slots[word] matches Some(a) ==> 0 <= a.start <= a.end,
    ensures
        ({
            let after = retained(slots, covered, speech, limit);
            let supported = slots[word] matches Some(a) && a.speech > 0 && covered[word] && (a.end
                > speech.len() || forall|at: int|
                a.start <= at <= a.end - limit - 1 ==> #[trigger] speech.subrange(
                    at,
                    at + limit + 1,
                ).contains(true));
            &&& after.len() == slots.len()
            &&& supported ==> after[word] == slots[word]
            &&& !supported ==> after[word] is None
        }),
{
    if let Some(a) = slots[word] {
        if a.end <= speech.len() {
            assert forall|at: int| a.start <= at <= a.end - limit - 1 implies (
            #[trigger] speech.subrange(at, at + limit + 1).contains(true) <==> !silent_stretch(
                speech,
                at,
                limit + 1,
            )) by {
                let window = speech.subrange(at, at + limit + 1);
                if window.contains(true) {
                    let i = choose|i: int| 0 <= i < window.len() && window[i];
                    assert(speech[at + i]);
                }
                if !silent_stretch(speech, at, limit + 1) {
                    let t = choose|t: int| at <= t < at + limit + 1 && #[trigger] speech[t];
                    assert(window[t - at]);
                }
            }
            if long_silence(speech, a.start, a.end, limit) {
                let at = choose|at: int| #[trigger] silent_stretch(speech, at, limit + 1)
                    && a.start <= at && at + limit + 1 <= a.end;
                assert(!speech.subrange(at, at + limit + 1).contains(true));
            }
        }
    }
}

/// Inside the span `[start, end)` of frames there is a stretch of more than
/// `limit` silent ones. A span that reaches beyond the known frames has none.
pub open spec fn long_silence(speech: Seq<bool>, start: int, end: int, limit: int) -> bool {
    &&& 0 <= start <= end <= speech.len()
    &&& exists|at: int| #[trigger] silent_stretch(speech, at, limit + 1) && start <= at && at + limit
        + 1 <= end
}

/// The `len` frames from `at` on are silent.
pub open spec fn silent_stretch(speech: Seq<bool>, at: int, len: int) -> bool {
    forall|t: int| at <= t < at + len ==> !#[trigger] speech[t]
}

/// The word is kept: it is emitted over speech, enough of it is, and no long
/// silence lies inside its span.
pub open spec fn kept(a: AccumView, covered: bool, speech: Seq<bool>, limit: int) -> bool {
    &&& a.speech > 0
    &&& covered
    &&& !long_silence(speech, a.start, a.end, limit)
}

/// The slots of the words that are kept.
pub open spec fn retained(
    slots: Seq<Option<AccumView>>,
    covered: Seq<bool>,
    speech: Seq<bool>,
    limit: int,
) -> Seq<Option<AccumView>> {
    Seq::new(
        slots.len(),
        |word: int|
            match slots[word] {
                Some(a) => if kept(a, covered[word], speech, limit) {
                    Some(a)
                } else {
                    None
                },
                None => None,
            },
    )
}

/// Whether more than `limit` silent frames follow each other inside the span
/// `[start, end)`.
fn has_long_silence(speech_frames: &[bool], start: usize, end: usize, limit: u64) -> (found: bool)
    ensures
        found == long_silence(speech_frames@, start as int, end as int, limit as int),
{
    if start > end || end > speech_frames.len() {
        return false;
    }
    let mut t: usize = start;
    let mut current: u64 = 0;
    while t < end
        invariant
            start <= t <= end <= speech_frames@.len(),
            current <= t - start,
            current <= limit,
            silent_stretch(speech_frames@, t - current, current as int),
            t - current > start ==> speech_frames@[t - current - 1],
            forall|at: int|
                start <= at && at + limit + 1 <= t ==> !#[trigger] silent_stretch(
                    speech_frames@,
                    at,
                    limit + 1,
                ),
        decreases end - t,
    {
        if speech_frames[t] {
            current = 0;
        } else {
            if current == limit {
                assert(silent_stretch(speech_frames@, t - limit, limit + 1));
                return true;
            }
            current += 1;
        }
        proof {
            assert forall|at: int| start <= at && at + limit + 1 <= t + 1 implies
                !#[trigger] silent_stretch(speech_frames@, at, limit + 1) by {
                if at + limit + 1 == t + 1 && silent_stretch(speech_frames@, at, limit + 1) {
                    assert(!speech_frames@[t as int]);
                    assert(!speech_frames@[t + 1 - current - 1]);
                }
            }
        }
        t += 1;
    }
    false
}

/// Drop the words that speech does not support. `covered` says of each word
/// whether enough of its emissions are over speech.
pub fn retain_supported(
    per_word: Vec<Option<WordAccum>>,
    covered: &[bool],
    speech_frames: &[bool],
    max_silent_run_frames: u64,
) -> (supported: Vec<Option<WordAccum>>)
    requires
        covered@.len() == per_word@.len(),
    ensures
        supported@.len() == per_word@.len(),
        forall|word: int|
            0 <= word < per_word@.len() ==> (#[trigger] supported@[word]) == match per_word@[word] {
                Some(accum) => if kept(
                    accum@,
                    covered@[word],
                    speech_frames@,
                    max_silent_run_frames as int,
                ) {
                    Some(accum)
                } else {
                    None
                },
                None => None,
            },
        slot_views(supported@) == retained(
            slot_views(per_word@),
            covered@,
            speech_frames@,
            max_silent_run_frames as int,
        ),
{
    let ghost all = per_word@;
    let mut supported: Vec<Option<WordAccum>> = per_word;
    let mut word: usize = 0;
    while word < supported.len()
        invariant
            word <= supported@.len() == all.len() == covered@.len(),
            forall|i: int| word <= i < all.len() ==> (#[trigger] supported@[i]) == all[i],
            forall|i: int|
                0 <= i < word ==> (#[trigger] supported@[i]) == match all[i] {
                    Some(accum) => if kept(
                        accum@,
                        covered@[i],
                        speech_frames@,
                        max_silent_run_frames as int,
                    ) {
                        Some(accum)
                    } else {
                        None
                    },
                    None => None,
                },
        decreases all.len() - word,
    {
        let keep: bool = match &supported[word] {
            Some(accum) => accum.speech_emissions > 0 && covered[word] && !has_long_silence(
                speech_frames,
                accum.start_frame as usize,
                accum.end_frame as usize,
                max_silent_run_frames,
            ),
            None => false,
        };
        if !keep {
            supported[word] = None;
        }
        word += 1;
    }
    assert(slot_views(supported@) =~= retained(
        slot_views(all),
        covered@,
        speech_frames@,
        max_silent_run_frames as int,
    ));
    supported
}

/// Number of whole frames of `hop` samples in a duration.
pub open spec fn whole_frames(hop: u32, secs: int, subsec_nanos: int) -> int {
    time::ticks_in(secs, subsec_nanos, Timebase { num: hop, den: time::SAMPLE_RATE_HZ })
}

/// The whole frames of a duration fit into it, and one more would not: a frame
/// lasts its number of samples at 16 kHz.
pub proof fn whole_frames_fill_the_duration(hop: u32, secs: u64, subsec_nanos: u32)
    ensures
        ({
            let frames = whole_frames(hop, secs as int, subsec_nanos as int);
            let nanos = secs * 1_000_000_000 + subsec_nanos;
            &&& hop == 0 ==> frames == 0
            &&& hop > 0 ==> {
                &&& 0 <= frames <= i64::MAX
                &&& frames * hop * 1_000_000_000 <= nanos * 16_000
                &&& frames < i64::MAX ==> nanos * 16_000 < (frames + 1) * hop * 1_000_000_000
            }
        }),
{
    if hop > 0 {
        let frames = whole_frames(hop, secs as int, subsec_nanos as int);
        let nanos: int = secs * 1_000_000_000 + subsec_nanos;
        let down: int = hop * 1_000_000_000;
        let q = (nanos * 16_000) / down;
        vstd::arithmetic::div_mod::lemma_fundamental_div_mod(nanos * 16_000, down);
        vstd::arithmetic::div_mod::lemma_mod_bound(nanos * 16_000, down);
        vstd::arithmetic::div_mod::lemma_div_pos_is_pos(nanos * 16_000, down);
        assert(frames <= q);
        assert(frames * down <= q * down) by (nonlinear_arith)
            requires
                frames <= q,
                down > 0,
        ;
        assert(q * down == down * q) by (nonlinear_arith);
        assert((q + 1) * down == q * down + down) by (nonlinear_arith);
        assert(frames * hop * 1_000_000_000 == frames * down) by (nonlinear_arith)
            requires
                down == hop * 1_000_000_000,
        ;
        assert((frames + 1) * hop * 1_000_000_000 == (frames + 1) * down) by (nonlinear_arith)
            requires
                down == hop * 1_000_000_000,
        ;
    }
}

/// Number of whole frames of `hop_samples` samples in a duration.
pub fn max_silent_run_frames(hop_samples: u32, secs: u64, subsec_nanos: u32) -> (frames: u64)
    requires
        subsec_nanos < time::NANOS_PER_SEC,
    ensures
        frames == whole_frames(hop_samples, secs as int, subsec_nanos as int),
{
    let frame_tb = Timebase::new(hop_samples, time::SAMPLE_RATE_HZ);
    proof {
        let ns = secs as int * time::NANOS_PER_SEC + subsec_nanos;
        if hop_samples > 0 {
            assert(ns * time::SAMPLE_RATE_HZ >= 0) by (nonlinear_arith)
                requires
                    ns >= 0,
            ;
            vstd::arithmetic::div_mod::lemma_div_pos_is_pos(
                ns * time::SAMPLE_RATE_HZ,
                hop_samples * time::NANOS_PER_SEC,
            );
        }
    }
    time::duration_to_pts(frame_tb, secs, subsec_nanos) as u64
}

/// Where words lie in the stream: the chunk's first sample and its number of
/// samples, and for each word the offsets of its first and last frame from the
/// chunk's start, in samples.
pub struct Placement {
    /// Stream position of the chunk's first sample.
    pub chunk_first: int,
    /// Number of samples of the chunk.
    pub n_samples: int,
    /// Offsets of each word's start and end from the chunk's start.
    pub offsets: Seq<(u64, u64)>,
}

impl Placement {
    /// Stream position one past the chunk's last sample.
    pub open spec fn chunk_end(self) -> int {
        if self.chunk_first + self.n_samples > u64::MAX {
            u64::MAX as int
        } else {
            self.chunk_first + self.n_samples
        }
    }

    /// Stream position of the word's start.
    pub open spec fn start(self, word: int) -> int {
        self.chunk_first + self.offsets[word].0
    }

    /// Stream position of the word's end, which is not past the chunk's.
    pub open spec fn end(self, word: int) -> int {
        let end = self.chunk_first + self.offsets[word].1;
        if end > self.chunk_end() {
            self.chunk_end()
        } else {
            end
        }
    }

    /// The word is kept and starts inside the chunk.
    pub open spec fn emitted(self, slots: Seq<Option<AccumView>>, word: int) -> bool {
        slots[word] is Some && self.start(word) < self.chunk_end()
    }

    /// The words among the first `n` that are kept and start inside the chunk.
    pub open spec fn emitted_words(self, slots: Seq<Option<AccumView>>, n: int) -> Seq<int>
        decreases n,
    {
        if n <= 0 {
            Seq::empty()
        } else if self.emitted(slots, n - 1) {
            self.emitted_words(slots, n - 1).push(n - 1)
        } else {
            self.emitted_words(slots, n - 1)
        }
    }
}

/// The words that are kept come out in the order of the text; each is a word of
/// the text, kept, and starts inside the chunk.
pub proof fn emitted_words_are_in_order(
    placement: Placement,
    slots: Seq<Option<AccumView>>,
    n: int,
)
    requires
        0 <= n,
    ensures
        ({
            let words = placement.emitted_words(slots, n);
            &&& words.len() <= n
            &&& forall|i: int|
                0 <= i < words.len() ==> 0 <= (#[trigger] words[i]) < n && placement.emitted(
                    slots,
                    words[i],
                )
            &&& forall|i: int, j: int|
                0 <= i < j < words.len() ==> (#[trigger] words[i]) < (#[trigger] words[j])
            &&& forall|word: int|
                0 <= word < n && #[trigger] placement.emitted(slots, word) ==> words.contains(word)
        }),
    decreases n,
{
    if n > 0 {
        emitted_words_are_in_order(placement, slots, n - 1);
        let before = placement.emitted_words(slots, n - 1);
        let words = placement.emitted_words(slots, n);
        assert forall|word: int|
            0 <= word < n && #[trigger] placement.emitted(slots, word) implies words.contains(
            word,
        ) by {
            if word < n - 1 {
                let i = choose|i: int| 0 <= i < before.len() && before[i] == word;
                assert(words[i] == word);
            } else {
                assert(words[before.len() as int] == word);
            }
        }
    }
}

/// The words are those that are kept and start inside the chunk, in order: each
/// with its surface form, its score, and a range that `to_range` may give for
/// its stream positions.
pub open spec fn composed<F: Fn(u64, u64) -> TimeRange>(
    to_range: F,
    original_words: Seq<String>,
    placement: Placement,
    slots: Seq<Option<AccumView>>,
    scores: Seq<Binary32>,
    words: Seq<WordView>,
) -> bool {
    let emitted = placement.emitted_words(slots, slots.len() as int);
    &&& words.len() == emitted.len()
    &&& forall|i: int|
        0 <= i < emitted.len() ==> {
            &&& (#[trigger] words[i]).text == original_words[emitted[i]]@
            &&& words[i].score == scores[emitted[i]]
            &&& call_ensures(
                to_range,
                (placement.start(emitted[i]) as u64, placement.end(emitted[i]) as u64),
                words[i].range,
            )
        }
}

/// Build the words that are kept: each with its surface form, its range in the
/// output timebase and its score. A word that starts past the end of the chunk
/// is left out, and no word reaches past it.
pub fn compose_words<F: Fn(u64, u64) -> TimeRange>(
    per_word: &[Option<WordAccum>],
    original_words: &[String],
    offsets: &[(u64, u64)],
    scores: &[Binary32],
    chunk_first_sample_in_stream: u64,
    n_samples: u64,
    samples_to_output_range: F,
) -> (result: AlignmentResult)
    requires
        original_words@.len() == per_word@.len(),
        offsets@.len() == per_word@.len(),
        scores@.len() == per_word@.len(),
        ({
            let placement = Placement {
                chunk_first: chunk_first_sample_in_stream as int,
                n_samples: n_samples as int,
                offsets: offsets@,
            };
            forall|word: int|
                0 <= word < per_word@.len() && (#[trigger] per_word@[word]) is Some ==> {
                    &&& chunk_first_sample_in_stream + offsets@[word].0 <= u64::MAX
                    &&& chunk_first_sample_in_stream + offsets@[word].1 <= u64::MAX
                    &&& placement.emitted(slot_views(per_word@), word) ==> call_requires(
                        samples_to_output_range,
                        (placement.start(word) as u64, placement.end(word) as u64),
                    )
                }
        }),
    ensures
        ({
            let placement = Placement {
                chunk_first: chunk_first_sample_in_stream as int,
                n_samples: n_samples as int,
                offsets: offsets@,
            };
            composed(
                samples_to_output_range,
                original_words@,
                placement,
                slot_views(per_word@),
                scores@,
                result@,
            )
        }),
{
    let ghost placement = Placement {
        chunk_first: chunk_first_sample_in_stream as int,
        n_samples: n_samples as int,
        offsets: offsets@,
    };
    let chunk_end_sample: u64 = if n_samples > u64::MAX - chunk_first_sample_in_stream {
        u64::MAX
    } else {
        chunk_first_sample_in_stream + n_samples
    };
    let mut words: Vec<Word> = Vec::new();
    let mut i: usize = 0;
    while i < per_word.len()
        invariant
            i <= per_word@.len(),
            original_words@.len() == per_word@.len(),
            offsets@.len() == per_word@.len(),
            scores@.len() == per_word@.len(),
            placement == (Placement {
                chunk_first: chunk_first_sample_in_stream as int,
                n_samples: n_samples as int,
                offsets: offsets@,
            }),
            chunk_end_sample == placement.chunk_end(),
            forall|word: int|
                0 <= word < per_word@.len() && (#[trigger] per_word@[word]) is Some ==> {
                    &&& chunk_first_sample_in_stream + offsets@[word].0 <= u64::MAX
                    &&& chunk_first_sample_in_stream + offsets@[word].1 <= u64::MAX
                    &&& placement.emitted(slot_views(per_word@), word) ==> call_requires(
                        samples_to_output_range,
                        (placement.start(word) as u64, placement.end(word) as u64),
                    )
                },
            words@.len() == placement.emitted_words(slot_views(per_word@), i as int).len(),
            forall|j: int|
                0 <= j < words@.len() ==> ({
                    let word = placement.emitted_words(slot_views(per_word@), i as int)[j];
                    &&& (#[trigger] words@[j])@.text == original_words@[word]@
                    &&& words@[j]@.score == scores@[word]
                    &&& call_ensures(
                        samples_to_output_range,
                        (placement.start(word) as u64, placement.end(word) as u64),
                        words@[j]@.range,
                    )
                }),
        decreases per_word@.len() - i,
    {
        if per_word[i].is_some() {
            assert(per_word@[i as int] is Some);
            let start_sample: u64 = chunk_first_sample_in_stream + offsets[i].0;
            let end_sample: u64 = chunk_first_sample_in_stream + offsets[i].1;
            if start_sample < chunk_end_sample {
                let clamped_end: u64 = if end_sample > chunk_end_sample {
                    chunk_end_sample
                } else {
                    end_sample
                };
                assert(placement.emitted(slot_views(per_word@), i as int));
                let range: TimeRange = samples_to_output_range(start_sample, clamped_end);
                words.push(
                    Word::new(text::smol_str(original_words[i].as_str()), range, scores[i]),
                );
            }
        }
        i += 1;
    }
    AlignmentResult { words }
}

/// The result holds one word for each slot that is kept and starts before the
/// chunk's end, however far into the chunk, and no other, in the order of the
/// text. Each has its surface form and its score, and runs from its start to its
/// end or to the chunk's, whichever comes first.
pub proof fn every_kept_word_in_the_chunk_is_given<F: Fn(u64, u64) -> TimeRange>(
    to_range: F,
    original_words: Seq<String>,
    chunk_first: u64,
    n_samples: u64,
    offsets: Seq<(u64, u64)>,
    slots: Seq<Option<AccumView>>,
    scores: Seq<Binary32>,
    words: Seq<WordView>,
) -> (picked: Seq<int>)
    requires
        composed(
            to_range,
            original_words,
            Placement { chunk_first: chunk_first as int, n_samples: n_samples as int, offsets },
            slots,
            scores,
            words,
        ),
    ensures
        ({
            let end = vstd::math::min(chunk_first + n_samples, u64::MAX as int);
            &&& picked.len() == words.len()
            &&& forall|i: int, j: int|
                0 <= i < j < picked.len() ==> (#[trigger] picked[i]) < (#[trigger] picked[j])
            &&& forall|word: int|
                0 <= word < slots.len() ==> ((#[trigger] slots[word]) is Some && chunk_first
                    + offsets[word].0 < end <==> picked.contains(word))
            &&& forall|i: int|
                0 <= i < words.len() ==> {
                    let word = picked[i];
                    &&& 0 <= word < slots.len()
                    &&& (#[trigger] words[i]).text == original_words[word]@
                    &&& words[i].score == scores[word]
                    &&& call_ensures(
                        to_range,
                        (
                            (chunk_first + offsets[word].0) as u64,
                            vstd::math::min(chunk_first + offsets[word].1, end) as u64,
                        ),
                        words[i].range,
                    )
                }
        }),
{
    let placement = Placement {
        chunk_first: chunk_first as int,
        n_samples: n_samples as int,
        offsets,
    };
    let picked = placement.emitted_words(slots, slots.len() as int);
    emitted_words_are_in_order(placement, slots, slots.len() as int);
    let end = vstd::math::min(chunk_first + n_samples, u64::MAX as int);
    assert forall|word: int| 0 <= word < slots.len() implies ((
    #[trigger] slots[word]) is Some && chunk_first + offsets[word].0 < end <==> picked.contains(
        word,
    )) by {
        if slots[word] is Some && chunk_first + offsets[word].0 < end {
            assert(placement.emitted(slots, word));
        }
        if picked.contains(word) {
            let i = choose|i: int| 0 <= i < picked.len() && picked[i] == word;
            assert(placement.emitted(slots, picked[i]));
        }
    }
    assert forall|i: int| 0 <= i < words.len() implies {
        let word = picked[i];
        &&& 0 <= word < slots.len()
        &&& (#[trigger] words[i]).text == original_words[word]@
        &&& words[i].score == scores[word]
        &&& call_ensures(
            to_range,
            (
                (chunk_first + offsets[word].0) as u64,
                vstd::math::min(chunk_first + offsets[word].1, end) as u64,
            ),
            words[i].range,
        )
    } by {
        let word = picked[i];
        assert(placement.emitted(slots, word));
        assert(placement.start(word) == chunk_first + offsets[word].0);
        assert(placement.end(word) == vstd::math::min(chunk_first + offsets[word].1, end));
    }
    picked
}

/// What the caller's arithmetic gives for the words of a path: whether enough of
/// each is emitted over speech, the offsets of its first and last frame from
/// the chunk's start, and its score.
pub struct Measures {
    /// Whether enough of each word is emitted over speech.
    pub covered: Seq<bool>,
    /// Offsets of each word's start and end, in samples.
    pub offsets: Seq<(u64, u64)>,
    /// Score of each word.
    pub scores: Seq<Binary32>,
}

/// `score` may give the value for the emissions.
pub open spec fn scored_by<S: Fn(&[Emission]) -> Binary32>(
    score: S,
    emissions: Seq<Emission>,
    value: Binary32,
) -> bool {
    exists|listed: &[Emission]| #[trigger]
        call_ensures(score, (listed,), value) && listed@ == emissions
}

/// The caller's functions may give these measures: `covers` for the emissions
/// of a word over speech and in all, `offset` for its first frame and for the
/// one past its last, `score` for its emissions. Words that are dropped are
/// neither placed nor scored.
pub open spec fn measured<
    C: Fn(u32, u32) -> bool,
    O: Fn(u32) -> u64,
    S: Fn(&[Emission]) -> Binary32,
>(
    covers: C,
    offset: O,
    score: S,
    slots: Seq<Option<AccumView>>,
    speech: Seq<bool>,
    limit: int,
    m: Measures,
) -> bool {
    &&& m.covered.len() == slots.len()
    &&& m.offsets.len() == slots.len()
    &&& m.scores.len() == slots.len()
    &&& forall|word: int|
        0 <= word < slots.len() ==> ((#[trigger] slots[word]) matches Some(a) ==> {
            &&& call_ensures(covers, (a.speech as u32, a.total as u32), m.covered[word])
            &&& kept(a, m.covered[word], speech, limit) ==> {
                &&& call_ensures(offset, (a.start as u32,), m.offsets[word].0)
                &&& call_ensures(offset, (a.end as u32,), m.offsets[word].1)
                &&& scored_by(score, a.emissions, m.scores[word])
            }
        })
}

/// The words are those that a path with these slots gives under these measures.
pub open spec fn words_given<F: Fn(u64, u64) -> TimeRange>(
    to_range: F,
    original_words: Seq<String>,
    slots: Seq<Option<AccumView>>,
    speech: Seq<bool>,
    limit: int,
    chunk_first: int,
    n_samples: int,
    m: Measures,
    words: Seq<WordView>,
) -> bool {
    composed(
        to_range,
        original_words,
        Placement { chunk_first, n_samples, offsets: m.offsets },
        retained(slots, m.covered, speech, limit),
        m.scores,
        words,
    )
}

/// Every word given is a word of the text that is emitted over speech and of which
/// `covers` finds enough. `offset` places its first frame and the one past its
/// last, `to_range` maps these positions in the stream, the later one not past the
/// chunk's end, and `score` rates exactly its emissions over speech.
pub proof fn given_words_are_placed_and_scored<
    C: Fn(u32, u32) -> bool,
    O: Fn(u32) -> u64,
    S: Fn(&[Emission]) -> Binary32,
    F: Fn(u64, u64) -> TimeRange,
>(
    covers: C,
    offset: O,
    score: S,
    to_range: F,
    original_words: Seq<String>,
    slots: Seq<Option<AccumView>>,
    speech: Seq<bool>,
    limit: int,
    chunk_first: u64,
    n_samples: u64,
    m: Measures,
    words: Seq<WordView>,
    i: int,
) -> (word: int)
    requires
        0 <= limit,
        measured(covers, offset, score, slots, speech, limit, m),
        words_given(
            to_range,
            original_words,
            slots,
            speech,
            limit,
            chunk_first as int,
            n_samples as int,
            m,
            words,
        ),
        0 <= i < words.len(),
    ensures
        0 <= word < slots.len(),
        words[i].text == original_words[word]@,
        slots[word] is Some,
        slots[word]->0.speech > 0,
        call_ensures(
            covers,
            (slots[word]->0.speech as u32, slots[word]->0.total as u32),
            true,
        ),
        call_ensures(offset, (slots[word]->0.start as u32,), m.offsets[word].0),
        call_ensures(offset, (slots[word]->0.end as u32,), m.offsets[word].1),
        scored_by(score, slots[word]->0.emissions, words[i].score),
        ({
            let chunk_end = vstd::math::min(chunk_first + n_samples, u64::MAX as int);
            &&& chunk_first + m.offsets[word].0 < chunk_end
            &&& call_ensures(
                to_range,
                (
                    (chunk_first + m.offsets[word].0) as u64,
                    vstd::math::min(chunk_first + m.offsets[word].1, chunk_end) as u64,
                ),
                words[i].range,
            )
        }),
{
    let supported = retained(slots, m.covered, speech, limit);
    let picked = every_kept_word_in_the_chunk_is_given(
        to_range,
        original_words,
        chunk_first,
        n_samples,
        m.offsets,
        supported,
        m.scores,
        words,
    );
    let word = picked[i];
    assert(words[i].text == original_words[picked[i]]@);
    assert(picked.contains(word));
    assert(supported[word] is Some);
    assert(slots[word] is Some);
    assert(kept(slots[word]->0, m.covered[word], speech, limit));
    word
}

/// A word of the text is given if it is emitted over speech, `covers` finds enough
/// of it, speech recurs in it often enough, and it starts before the chunk's end.
pub proof fn supported_words_are_given<
    C: Fn(u32, u32) -> bool,
    O: Fn(u32) -> u64,
    S: Fn(&[Emission]) -> Binary32,
    F: Fn(u64, u64) -> TimeRange,
>(
    covers: C,
    offset: O,
    score: S,
    to_range: F,
    original_words: Seq<String>,
    slots: Seq<Option<AccumView>>,
    speech: Seq<bool>,
    limit: int,
    chunk_first: u64,
    n_samples: u64,
    m: Measures,
    words: Seq<WordView>,
    word: int,
) -> (i: int)
    requires
        0 <= limit,
        measured(covers, offset, score, slots, speech, limit, m),
        words_given(
            to_range,
            original_words,
            slots,
            speech,
            limit,
            chunk_first as int,
            n_samples as int,
            m,
            words,
        ),
        0 <= word < slots.len(),
        slots[word] is Some,
        ({
            let a = slots[word]->0;
            &&& 0 <= a.start <= a.end
            &&& a.speech > 0
            &&& !call_ensures(covers, (a.speech as u32, a.total as u32), false)
            &&& a.end > speech.len() || forall|at: int|
                a.start <= at <= a.end - limit - 1 ==> #[trigger] speech.subrange(
                    at,
                    at + limit + 1,
                ).contains(true)
        }),
        chunk_first + m.offsets[word].0 < vstd::math::min(
            chunk_first + n_samples,
            u64::MAX as int,
        ),
    ensures
        0 <= i < words.len(),
        words[i].text == original_words[word]@,
        words[i].score == m.scores[word],
        call_ensures(offset, (slots[word]->0.start as u32,), m.offsets[word].0),
        call_ensures(offset, (slots[word]->0.end as u32,), m.offsets[word].1),
        scored_by(score, slots[word]->0.emissions, words[i].score),
{
    let supported = retained(slots, m.covered, speech, limit);
    let picked = every_kept_word_in_the_chunk_is_given(
        to_range,
        original_words,
        chunk_first,
        n_samples,
        m.offsets,
        supported,
        m.scores,
        words,
    );
    kept_words_are_supported_by_speech(slots, m.covered, speech, limit, word);
    assert(call_ensures(
        covers,
        (slots[word]->0.speech as u32, slots[word]->0.total as u32),
        m.covered[word],
    ));
    assert(m.covered[word]);
    assert(supported[word] == slots[word]);
    assert(kept(slots[word]->0, m.covered[word], speech, limit));
    assert(picked.contains(word));
    let i = choose|i: int| 0 <= i < picked.len() && picked[i] == word;
    assert(words[i].text == original_words[picked[i]]@);
    i
}

/// The words of a path: sum up what it says about each word, drop those that
/// speech does not support, and place and score the others.
///
/// - `covers` tells from the number of a word's emissions over speech, and in
///   all, whether enough of it is.
/// - `offset` gives the sample at which a frame starts, counted from the chunk's
///   start; a later frame starts no earlier.
/// - `score` gives a word's confidence from its emissions over speech.
/// - `to_range` maps stream positions to the output timebase.
pub fn words_of_path<
    C: Fn(u32, u32) -> bool,
    O: Fn(u32) -> u64,
    S: Fn(&[Emission]) -> Binary32,
    F: Fn(u64, u64) -> TimeRange,
>(
    path: &ViterbiPath,
    word_idx_per_token: &[Option<usize>],
    original_words: &[String],
    speech_frames: &[bool],
    max_silent_run_frames: u64,
    chunk_first_sample_in_stream: u64,
    n_samples: u64,
    covers: C,
    offset: O,
    score: S,
    to_range: F,
) -> (result: AlignmentResult)
    requires
        path.state_per_frame@.len() < u32::MAX,
        ({
            let trace = trace_of(*path, word_idx_per_token@, speech_frames@);
            let frames = path.state_per_frame@.len() as int;
            let end = (Placement {
                chunk_first: chunk_first_sample_in_stream as int,
                n_samples: n_samples as int,
                offsets: Seq::empty(),
            }).chunk_end();
            &&& trace.ids_known(original_words@.len() as int)
            &&& forall|speech: u32, total: u32|
                speech <= total && 0 < total ==> #[trigger] call_requires(
                    covers,
                    (speech, total),
                )
            &&& forall|frame: u32|
                frame <= frames ==> #[trigger] call_requires(offset, (frame,))
            &&& forall|frame: u32, samples: u64|
                frame <= frames && #[trigger] call_ensures(offset, (frame,), samples)
                    ==> chunk_first_sample_in_stream + samples <= u64::MAX
            &&& forall|listed: &[Emission], word: int|
                #![trigger call_requires(score, (listed,)), trace.voiced_emissions(word, frames)]
                0 <= word < original_words@.len() && listed@.len() > 0 && listed@
                    == trace.voiced_emissions(word, frames) ==> call_requires(score, (listed,))
            &&& forall|first: u32, last: u32, from: u64, to: u64| #[trigger]
                call_ensures(offset, (first,), from) && #[trigger] call_ensures(
                    offset,
                    (last,),
                    to,
                ) && first <= last <= frames ==> from <= to
            &&& forall|a: u64, b: u64|
                chunk_first_sample_in_stream <= a < end && a <= b <= end
                    ==> #[trigger] call_requires(to_range, (a, b))
        }),
    ensures
        ({
            let slots = trace_of(*path, word_idx_per_token@, speech_frames@).slots(
                original_words@.len() as int,
            );
            exists|m: Measures|
                #[trigger] measured(
                    covers,
                    offset,
                    score,
                    slots,
                    speech_frames@,
                    max_silent_run_frames as int,
                    m,
                ) && words_given(
                    to_range,
                    original_words@,
                    slots,
                    speech_frames@,
                    max_silent_run_frames as int,
                    chunk_first_sample_in_stream as int,
                    n_samples as int,
                    m,
                    result@,
                )
        }),
        path.state_per_frame@.len() <= speech_frames@.len() && (forall|t: int|
            0 <= t < path.state_per_frame@.len() ==> !#[trigger] speech_frames@[t])
            ==> result@.len() == 0,
{
    let ghost trace = trace_of(*path, word_idx_per_token@, speech_frames@);
    let ghost frames = path.state_per_frame@.len() as int;
    let ghost limit = max_silent_run_frames as int;
    let n_words: usize = original_words.len();
    let per_word: Vec<Option<WordAccum>> = accumulate_per_word(
        path,
        word_idx_per_token,
        n_words,
        speech_frames,
    );
    let ghost slots = slot_views(per_word@);
    let covered: Vec<bool> = covered_words(
        per_word.as_slice(),
        &covers,
        Ghost(trace),
        Ghost(frames),
    );
    let supported: Vec<Option<WordAccum>> = retain_supported(
        per_word,
        covered.as_slice(),
        speech_frames,
        max_silent_run_frames,
    );
    proof {
        assert forall|word: int| 0 <= word < n_words implies supported_slot(
            trace,
            word,
            frames,
            #[trigger] supported@[word],
        ) by {
            assert(trace.slot(word, frames, slot_view(per_word@[word])));
        }
    }
    let (offsets, scores) = placed_and_scored(
        supported.as_slice(),
        &offset,
        &score,
        Ghost(trace),
        Ghost(frames),
    );
    let ghost m = Measures { covered: covered@, offsets: offsets@, scores: scores@ };
    let ghost placement = Placement {
        chunk_first: chunk_first_sample_in_stream as int,
        n_samples: n_samples as int,
        offsets: offsets@,
    };
    proof {
        assert(slot_views(supported@) == retained(slots, covered@, speech_frames@, limit));
        assert forall|word: int| 0 <= word < slots.len() implies ((
        #[trigger] slots[word]) matches Some(a) ==> {
            &&& call_ensures(covers, (a.speech as u32, a.total as u32), m.covered[word])
            &&& kept(a, m.covered[word], speech_frames@, limit) ==> {
                &&& call_ensures(offset, (a.start as u32,), m.offsets[word].0)
                &&& call_ensures(offset, (a.end as u32,), m.offsets[word].1)
                &&& scored_by(score, a.emissions, m.scores[word])
            }
        }) by {
            assert(slots[word] == slot_view(per_word@[word]));
            assert(slot_views(supported@)[word] == slot_view(supported@[word]));
        }
        assert(measured(covers, offset, score, slots, speech_frames@, limit, m));
        assert forall|word: int|
            0 <= word < supported@.len() && (#[trigger] supported@[word]) is Some implies {
            &&& chunk_first_sample_in_stream + offsets@[word].0 <= u64::MAX
            &&& chunk_first_sample_in_stream + offsets@[word].1 <= u64::MAX
            &&& placement.emitted(slot_views(supported@), word) ==> call_requires(
                to_range,
                (placement.start(word) as u64, placement.end(word) as u64),
            )
        } by {
            assert(supported_slot(trace, word, frames, supported@[word]));
            let a = supported@[word]->0@;
            assert(call_ensures(offset, (a.start as u32,), offsets@[word].0));
            assert(call_ensures(offset, (a.end as u32,), offsets@[word].1));
            words_span_their_emissions(trace, word, frames, a);
        }
        if frames <= speech_frames@.len() && (forall|t: int|
            0 <= t < frames ==> !#[trigger] speech_frames@[t]) {
            assert forall|word: int| 0 <= word < n_words implies (
            #[trigger] slot_views(supported@)[word]) is None by {
                assert(trace.slot(word, frames, slots[word]));
                if let Some(a) = slots[word] {
                    silence_keeps_no_word(trace, word, frames, a, covered@[word], limit);
                }
            }
            lemma_nothing_emitted(placement, slot_views(supported@), n_words as int);
        }
    }
    compose_words(
        supported.as_slice(),
        original_words,
        offsets.as_slice(),
        scores.as_slice(),
        chunk_first_sample_in_stream,
        n_samples,
        to_range,
    )
}

/// A word that is kept: it is emitted over speech, and this is what the first
/// `n` frames say about it.
spec fn supported_slot(trace: Trace, word: int, n: int, slot: Option<WordAccum>) -> bool {
    slot matches Some(accum) ==> accum@.speech > 0 && trace.summed_up(word, n, accum@)
}

/// Ask of each word whether enough of it is emitted over speech.
fn covered_words<C: Fn(u32, u32) -> bool>(
    per_word: &[Option<WordAccum>],
    covers: &C,
    Ghost(trace): Ghost<Trace>,
    Ghost(n): Ghost<int>,
) -> (covered: Vec<bool>)
    requires
        0 <= n,
        forall|word: int|
            0 <= word < per_word@.len() ==> trace.slot(
                word,
                n,
                slot_view(#[trigger] per_word@[word]),
            ),
        forall|speech: u32, total: u32|
            speech <= total && 0 < total ==> #[trigger] call_requires(*covers, (speech, total)),
    ensures
        covered@.len() == per_word@.len(),
        forall|word: int|
            0 <= word < per_word@.len() ==> ((#[trigger] per_word@[word]) matches Some(accum)
                ==> call_ensures(
                *covers,
                (accum.speech_emissions, accum.total_emissions),
                covered@[word],
            )),
{
    let mut covered: Vec<bool> = Vec::new();
    let mut word: usize = 0;
    while word < per_word.len()
        invariant
            0 <= n,
            word <= per_word@.len(),
            covered@.len() == word,
            forall|w: int|
                0 <= w < per_word@.len() ==> trace.slot(
                    w,
                    n,
                    slot_view(#[trigger] per_word@[w]),
                ),
            forall|speech: u32, total: u32|
                speech <= total && 0 < total ==> #[trigger] call_requires(
                    *covers,
                    (speech, total),
                ),
            forall|w: int|
                0 <= w < word ==> ((#[trigger] per_word@[w]) matches Some(accum) ==> call_ensures(
                    *covers,
                    (accum.speech_emissions, accum.total_emissions),
                    covered@[w],
                )),
        decreases per_word@.len() - word,
    {
        proof {
            assert(trace.slot(word as int, n, slot_view(per_word@[word as int])));
            lemma_opened(trace, word as int, n);
        }
        let enough: bool = match &per_word[word] {
            Some(accum) => covers(accum.speech_emissions, accum.total_emissions),
            None => false,
        };
        covered.push(enough);
        word += 1;
    }
    covered
}

/// Place and score the words that are kept.
fn placed_and_scored<O: Fn(u32) -> u64, S: Fn(&[Emission]) -> Binary32>(
    supported: &[Option<WordAccum>],
    offset: &O,
    score: &S,
    Ghost(trace): Ghost<Trace>,
    Ghost(n): Ghost<int>,
) -> (measures: (Vec<(u64, u64)>, Vec<Binary32>))
    requires
        0 <= n <= u32::MAX,
        forall|word: int|
            0 <= word < supported@.len() ==> supported_slot(
                trace,
                word,
                n,
                #[trigger] supported@[word],
            ),
        forall|frame: u32| frame <= n ==> #[trigger] call_requires(*offset, (frame,)),
        forall|listed: &[Emission], word: int|
            #![trigger call_requires(*score, (listed,)), trace.voiced_emissions(word, n)]
            0 <= word < supported@.len() && listed@.len() > 0 && listed@
                == trace.voiced_emissions(word, n) ==> call_requires(*score, (listed,)),
    ensures
        measures.0@.len() == supported@.len(),
        measures.1@.len() == supported@.len(),
        forall|word: int|
            0 <= word < supported@.len() ==> ((#[trigger] supported@[word]) matches Some(accum)
                ==> {
                &&& call_ensures(*offset, (accum.start_frame,), measures.0@[word].0)
                &&& call_ensures(*offset, (accum.end_frame,), measures.0@[word].1)
                &&& scored_by(*score, accum.emissions@, measures.1@[word])
            }),
{
    let mut offsets: Vec<(u64, u64)> = Vec::new();
    let mut scores: Vec<Binary32> = Vec::new();
    let mut word: usize = 0;
    while word < supported.len()
        invariant
            0 <= n <= u32::MAX,
            word <= supported@.len(),
            offsets@.len() == word,
            scores@.len() == word,
            forall|w: int|
                0 <= w < supported@.len() ==> supported_slot(
                    trace,
                    w,
                    n,
                    #[trigger] supported@[w],
                ),
            forall|frame: u32| frame <= n ==> #[trigger] call_requires(*offset, (frame,)),
            forall|listed: &[Emission], w: int|
                #![trigger call_requires(*score, (listed,)), trace.voiced_emissions(w, n)]
                0 <= w < supported@.len() && listed@.len() > 0 && listed@
                    == trace.voiced_emissions(w, n) ==> call_requires(*score, (listed,)),
            forall|w: int|
                0 <= w < word ==> ((#[trigger] supported@[w]) matches Some(accum) ==> {
                    &&& call_ensures(*offset, (accum.start_frame,), offsets@[w].0)
                    &&& call_ensures(*offset, (accum.end_frame,), offsets@[w].1)
                    &&& scored_by(*score, accum.emissions@, scores@[w])
                }),
        decreases supported@.len() - word,
    {
        assert(supported_slot(trace, word as int, n, supported@[word as int]));
        match &supported[word] {
            Some(accum) => {
                let start: u64 = offset(accum.start_frame);
                let end: u64 = offset(accum.end_frame);
                let listed: &[Emission] = accum.emissions.as_slice();
                assert(listed@ == trace.voiced_emissions(word as int, n));
                let value: Binary32 = score(listed);
                assert(scored_by(*score, accum.emissions@, value));
                offsets.push((start, end));
                scores.push(value);
            },
            None => {
                offsets.push((0, 0));
                scores.push(Binary32::zero());
            },
        }
        word += 1;
    }
    (offsets, scores)
}

proof fn lemma_nothing_emitted(placement: Placement, slots: Seq<Option<AccumView>>, n: int)
    requires
        0 <= n <= slots.len(),
        forall|word: int| 0 <= word < n ==> (#[trigger] slots[word]) is None,
    ensures
        placement.emitted_words(slots, n).len() == 0,
    decreases n,
{
    if n > 0 {
        lemma_nothing_emitted(placement, slots, n - 1);
    }
}

/// `small` is `big` without some of its items: its items are those of `big` at
/// the places `at`, in the same order.
pub open spec fn subsequence<A>(small: Seq<A>, big: Seq<A>, at: Seq<int>) -> bool {
    &&& at.len() == small.len()
    &&& forall|i: int|
        0 <= i < at.len() ==> 0 <= (#[trigger] at[i]) < big.len() && small[i] == big[at[i]]
    &&& forall|i: int, j: int| 0 <= i < j < at.len() ==> (#[trigger] at[i]) < (#[trigger] at[j])
}

/// The same path under stricter thresholds gives some of the same words. Where
/// `strict_covers` asks for no less than `covers` and tolerates no longer
/// silence, and placing, scoring and mapping depend on their arguments alone,
/// the stricter words are the others without some of them, in the same order
/// and with the same text, range and score.
pub proof fn thresholds_only_drop_words<
    C: Fn(u32, u32) -> bool,
    D: Fn(u32, u32) -> bool,
    O: Fn(u32) -> u64,
    S: Fn(&[Emission]) -> Binary32,
    F: Fn(u64, u64) -> TimeRange,
>(
    covers: C,
    strict_covers: D,
    offset: O,
    score: S,
    to_range: F,
    original_words: Seq<String>,
    slots: Seq<Option<AccumView>>,
    speech: Seq<bool>,
    limit: int,
    strict_limit: int,
    chunk_first: int,
    n_samples: int,
    m: Measures,
    strict_m: Measures,
    words: Seq<WordView>,
    strict_words: Seq<WordView>,
)
    requires
        0 <= strict_limit <= limit,
        forall|s: u32, t: u32, strict: bool, loose: bool| #[trigger]
            call_ensures(strict_covers, (s, t), strict) && #[trigger] call_ensures(
                covers,
                (s, t),
                loose,
            ) ==> (strict ==> loose),
        forall|frame: u32, a: u64, b: u64| #[trigger]
            call_ensures(offset, (frame,), a) && #[trigger] call_ensures(offset, (frame,), b) ==> a
                == b,
        forall|e: &[Emission], f: &[Emission], a: Binary32, b: Binary32| #[trigger]
            call_ensures(score, (e,), a) && #[trigger] call_ensures(score, (f,), b) && e@ == f@
                ==> a == b,
        forall|start: u64, end: u64, a: TimeRange, b: TimeRange| #[trigger]
            call_ensures(to_range, (start, end), a) && #[trigger] call_ensures(
                to_range,
                (start, end),
                b,
            ) ==> a == b,
        measured(covers, offset, score, slots, speech, limit, m),
        measured(strict_covers, offset, score, slots, speech, strict_limit, strict_m),
        words_given(
            to_range,
            original_words,
            slots,
            speech,
            limit,
            chunk_first,
            n_samples,
            m,
            words,
        ),
        words_given(
            to_range,
            original_words,
            slots,
            speech,
            strict_limit,
            chunk_first,
            n_samples,
            strict_m,
            strict_words,
        ),
    ensures
        exists|at: Seq<int>| subsequence(strict_words, words, at),
{
    let n = slots.len() as int;
    let placement = Placement { chunk_first, n_samples, offsets: m.offsets };
    let strict_placement = Placement { chunk_first, n_samples, offsets: strict_m.offsets };
    let loose = retained(slots, m.covered, speech, limit);
    let strict = retained(slots, strict_m.covered, speech, strict_limit);
    assert forall|word: int| 0 <= word < n && (#[trigger] strict[word]) is Some implies {
        &&& loose[word] is Some
        &&& m.offsets[word] == strict_m.offsets[word]
        &&& m.scores[word] == strict_m.scores[word]
    } by {
        assert(slots[word] is Some);
        let a = slots[word]->0;
        assert(kept(a, strict_m.covered[word], speech, strict_limit));
        assert(m.covered[word]);
        tolerance_is_monotone(a, true, speech, strict_limit, limit);
        assert(kept(a, m.covered[word], speech, limit));
        assert(scored_by(score, a.emissions, m.scores[word]));
        assert(scored_by(score, a.emissions, strict_m.scores[word]));
    }
    assert forall|word: int|
        0 <= word < n && #[trigger] strict_placement.emitted(strict, word) implies placement.emitted(
        loose,
        word,
    ) by {
        assert(strict[word] is Some);
    }
    let at = lemma_emitted_subsequence(placement, loose, strict_placement, strict, n);
    let emitted = placement.emitted_words(loose, n);
    let strict_emitted = strict_placement.emitted_words(strict, n);
    emitted_words_are_in_order(strict_placement, strict, n);
    assert forall|i: int| 0 <= i < at.len() implies 0 <= (#[trigger] at[i]) < words.len()
        && strict_words[i] == words[at[i]] by {
        let word = strict_emitted[i];
        assert(emitted[at[i]] == word);
        assert(strict_placement.emitted(strict, word));
        assert(strict[word] is Some);
        assert(words[at[i]].text == original_words[word]@);
        assert(strict_words[i].text == original_words[word]@);
        assert(strict_words[i].score == words[at[i]].score);
        assert(strict_placement.start(word) == placement.start(word));
        assert(strict_placement.end(word) == placement.end(word));
        assert(strict_words[i].range == words[at[i]].range);
        assert(strict_words[i] =~= words[at[i]]);
    }
    assert(subsequence(strict_words, words, at));
}

proof fn lemma_emitted_subsequence(
    placement: Placement,
    slots: Seq<Option<AccumView>>,
    strict_placement: Placement,
    strict: Seq<Option<AccumView>>,
    n: int,
) -> (at: Seq<int>)
    requires
        0 <= n,
        forall|word: int|
            0 <= word < n && #[trigger] strict_placement.emitted(strict, word)
                ==> placement.emitted(slots, word),
    ensures
        subsequence(
            strict_placement.emitted_words(strict, n),
            placement.emitted_words(slots, n),
            at,
        ),
    decreases n,
{
    if n == 0 {
        Seq::empty()
    } else {
        let before = lemma_emitted_subsequence(placement, slots, strict_placement, strict, n - 1);
        let big = placement.emitted_words(slots, n - 1);
        if strict_placement.emitted(strict, n - 1) {
            assert(placement.emitted(slots, n - 1));
            before.push(big.len() as int)
        } else {
            before
        }
    }
}

/// No word claims audio outside of its chunk.
pub proof fn words_stay_in_the_chunk(
    placement: Placement,
    slots: Seq<Option<AccumView>>,
    word: int,
)
    requires
        0 <= placement.chunk_first <= u64::MAX,
        0 <= placement.n_samples,
        placement.emitted(slots, word),
    ensures
        placement.chunk_first <= placement.start(word) < placement.chunk_end(),
        placement.chunk_first <= placement.end(word) <= placement.chunk_end(),
        placement.offsets[word].0 <= placement.offsets[word].1 ==> placement.start(word)
            <= placement.end(word),
{
}

/// A word that is emitted over speech spans all the frames that count toward
/// its score.
pub proof fn words_span_their_emissions(trace: Trace, word: int, n: int, a: AccumView)
    requires
        0 <= n <= u32::MAX,
        trace.summed_up(word, n, a),
        a.speech > 0,
    ensures
        a.start < a.end,
        forall|i: int|
            0 <= i < a.emissions.len() ==> a.start <= (#[trigger] a.emissions[i]).frame < a.end,
        a.speech <= a.total,
{
    lemma_opened(trace, word, n);
    assert(trace.voiced(word, a.start));
    assert(trace.extends(word, a.start));
    lemma_emission_frames(trace, word, n);
    assert forall|i: int| 0 <= i < a.emissions.len() implies a.start <= (
    #[trigger] a.emissions[i]).frame < a.end by {
        let t = a.emissions[i].frame as int;
        assert(trace.voiced(word, t));
        assert(trace.extends(word, t));
    }
}

proof fn lemma_emission_frames(trace: Trace, word: int, n: int)
    requires
        0 <= n <= u32::MAX,
    ensures
        forall|i: int|
            0 <= i < trace.voiced_emissions(word, n).len() ==> 0 <= (
            #[trigger] trace.voiced_emissions(word, n)[i]).frame < n && trace.voiced(
                word,
                trace.voiced_emissions(word, n)[i].frame as int,
            ),
    decreases n,
{
    if n > 0 {
        lemma_emission_frames(trace, word, n - 1);
        let before = trace.voiced_emissions(word, n - 1);
        let after = trace.voiced_emissions(word, n);
        assert forall|i: int| 0 <= i < after.len() implies 0 <= (#[trigger] after[i]).frame < n
            && trace.voiced(word, after[i].frame as int) by {
            if i < before.len() {
                assert(after[i] == before[i]);
            }
        }
    }
}

/// Where every frame is silent, no word is kept, whatever the path.
pub proof fn silence_keeps_no_word(
    trace: Trace,
    word: int,
    n: int,
    a: AccumView,
    covered: bool,
    limit: int,
)
    requires
        0 <= n <= trace.speech.len(),
        forall|t: int| 0 <= t < n ==> !#[trigger] trace.speech[t],
        trace.summed_up(word, n, a),
    ensures
        !kept(a, covered, trace.speech, limit),
{
    if a.speech > 0 {
        assert(trace.voiced(word, a.start));
        assert(trace.is_speech(a.start));
    }
}

/// A longer tolerated silence never drops a word that a shorter one keeps.
pub proof fn tolerance_is_monotone(
    a: AccumView,
    covered: bool,
    speech: Seq<bool>,
    limit: int,
    longer: int,
)
    requires
        0 <= limit <= longer,
        kept(a, covered, speech, limit),
    ensures
        kept(a, covered, speech, longer),
{
    if long_silence(speech, a.start, a.end, longer) {
        let at = choose|at: int| #[trigger] silent_stretch(speech, at, longer + 1) && a.start <= at
            && at + longer + 1 <= a.end;
        assert(silent_stretch(speech, at, limit + 1));
    }
}

} // verus!
