//! Splitting recognised segments into runs of one language.
//!
//! A segment's text is walked character by character. A run extends over the
//! characters of one language and the carried characters among and after them;
//! it ends where a character of another language stands. Carried characters
//! before the first concrete one belong to the first run. A segment of carried
//! characters only has no run.
//!
//! All runs of a segment share its time bounds, taken from the best timing
//! source that the segment has (see [`BoundsSource`]).

use smol_str::SmolStr;
use vstd::prelude::*;
use vstd::string::StrSliceExecFns;

use crate::align::script;
use crate::align::script::{CharClass, SegmentContext};
use crate::lang::Lang;
use crate::text;

verus! {

/// Where the time bounds of a [`Run`] came from.
#[derive(Clone, Copy, Debug, PartialEq, Eq, Structural)]
pub enum BoundsSource {
    /// The least and the greatest of the segment's token timestamps. Every
    /// token has one, and they are not all the same.
    Dtw,
    /// The segment's own start and end.
    Segment,
    /// Unknown: the bounds are `i64::MIN` and `i64::MAX`.
    Wholeclip,
}

/// A slice of a segment's text in one language.
#[derive(Debug)]
pub struct Run {
    language: Lang,
    text: SmolStr,
    audio_t0_ms: i64,
    audio_t1_ms: i64,
    source_segment_idx: i32,
    bounds_source: BoundsSource,
}

/// What a [`Run`] says.
#[verifier::ext_equal]
pub struct RunView {
    /// Its language.
    pub language: Lang,
    /// Its text, verbatim.
    pub text: Seq<char>,
    /// Start, in milliseconds.
    pub audio_t0_ms: i64,
    /// End, in milliseconds.
    pub audio_t1_ms: i64,
    /// Index of the segment that it was carved out of.
    pub source_segment_idx: i32,
    /// Where the bounds came from.
    pub bounds_source: BoundsSource,
}

impl View for Run {
    type V = RunView;

    closed spec fn view(&self) -> RunView {
        RunView {
            language: self.language,
            text: text::smol_str_chars(self.text),
            audio_t0_ms: self.audio_t0_ms,
            audio_t1_ms: self.audio_t1_ms,
            source_segment_idx: self.source_segment_idx,
            bounds_source: self.bounds_source,
        }
    }
}

/// The views of a list of runs.
pub open spec fn run_views(runs: Seq<Run>) -> Seq<RunView> {
    runs.map_values(|run: Run| run@)
}

impl Clone for Run {
    fn clone(&self) -> (copy: Run)
        ensures
            copy == *self,
    {
        Run {
            language: self.language.clone(),
            text: self.text.clone(),
            audio_t0_ms: self.audio_t0_ms,
            audio_t1_ms: self.audio_t1_ms,
            source_segment_idx: self.source_segment_idx,
            bounds_source: self.bounds_source,
        }
    }
}

impl Run {
    /// A run with the given parts.
    pub fn new(
        language: Lang,
        text: SmolStr,
        audio_t0_ms: i64,
        audio_t1_ms: i64,
        source_segment_idx: i32,
        bounds_source: BoundsSource,
    ) -> (run: Run)
        ensures
            run@ == (RunView {
                language,
                text: text::smol_str_chars(text),
                audio_t0_ms,
                audio_t1_ms,
                source_segment_idx,
                bounds_source,
            }),
    {
        Run { language, text, audio_t0_ms, audio_t1_ms, source_segment_idx, bounds_source }
    }
}

/// A recognised segment, as far as the split depends on it. Times are in
/// centiseconds.
pub struct SegmentView {
    /// Its text.
    pub text: Seq<char>,
    /// Its start; `i64::MIN` if unknown.
    pub t0: i64,
    /// Its end; `i64::MIN` if unknown.
    pub t1: i64,
    /// Timestamp of each text token, where it has one.
    pub dtw: Seq<Option<i64>>,
}

/// A recognised segment of whatever recogniser.
pub trait SegmentLike {
    /// What the segment says.
    open spec fn model(&self) -> SegmentView {
        arbitrary()
    }

    /// Decoded text, possibly empty.
    fn text(&self) -> (chars: &str)
        ensures
            chars@ == self.model().text,
    ;

    /// Start in centiseconds; `i64::MIN` if unknown.
    fn t0(&self) -> (t0: i64)
        ensures
            t0 == self.model().t0,
    ;

    /// End in centiseconds; `i64::MIN` if unknown.
    fn t1(&self) -> (t1: i64)
        ensures
            t1 == self.model().t1,
    ;

    /// Timestamp of each text token in centiseconds, in decode order; `None`
    /// where a token has none.
    fn token_dtw_timestamps(&self) -> (dtw: Vec<Option<i64>>)
        ensures
            dtw@ == self.model().dtw,
    ;
}

/// A recognised segment as plain values.
#[derive(Debug)]
pub struct PlainSegment {
    /// Decoded text, possibly empty.
    pub text: String,
    /// Start in centiseconds; `i64::MIN` if unknown.
    pub t0_cs: i64,
    /// End in centiseconds; `i64::MIN` if unknown.
    pub t1_cs: i64,
    /// Timestamp of each text token in centiseconds.
    pub dtw_cs: Vec<Option<i64>>,
}

impl SegmentLike for PlainSegment {
    open spec fn model(&self) -> SegmentView {
        SegmentView { text: self.text@, t0: self.t0_cs, t1: self.t1_cs, dtw: self.dtw_cs@ }
    }

    fn text(&self) -> (chars: &str) {
        self.text.as_str()
    }

    fn t0(&self) -> (t0: i64) {
        self.t0_cs
    }

    fn t1(&self) -> (t1: i64) {
        self.t1_cs
    }

    fn token_dtw_timestamps(&self) -> (dtw: Vec<Option<i64>>) {
        vstd::slice::slice_to_vec(self.dtw_cs.as_slice())
    }
}

/// Centiseconds as milliseconds, saturated to the range of `i64`.
pub open spec fn ms_of(cs: int) -> i64 {
    crate::time::saturate(cs * 10) as i64
}

fn cs_to_ms(cs: i64) -> (ms: i64)
    ensures
        ms == ms_of(cs as int),
{
    let wide: i128 = cs as i128 * 10;
    if wide > i64::MAX as i128 {
        i64::MAX
    } else if wide < i64::MIN as i128 {
        i64::MIN
    } else {
        wide as i64
    }
}

/// Every token has a timestamp, and there is at least one token.
pub open spec fn dtw_complete(dtw: Seq<Option<i64>>) -> bool {
    dtw.len() > 0 && forall|i: int| 0 <= i < dtw.len() ==> (#[trigger] dtw[i]) is Some
}

/// Least timestamp.
pub open spec fn dtw_least(dtw: Seq<Option<i64>>) -> i64
    decreases dtw.len(),
{
    if dtw.len() <= 1 {
        dtw[0]->0
    } else {
        let before = dtw_least(dtw.drop_last());
        if dtw.last()->0 < before {
            dtw.last()->0
        } else {
            before
        }
    }
}

/// Greatest timestamp.
pub open spec fn dtw_greatest(dtw: Seq<Option<i64>>) -> i64
    decreases dtw.len(),
{
    if dtw.len() <= 1 {
        dtw[0]->0
    } else {
        let before = dtw_greatest(dtw.drop_last());
        if dtw.last()->0 > before {
            dtw.last()->0
        } else {
            before
        }
    }
}

/// The time bounds of a segment, in milliseconds, and where they came from:
/// the token timestamps if every token has one and they span a range, else the
/// segment's own bounds if both are known, else unknown.
pub open spec fn bounds_of(t0: i64, t1: i64, dtw: Seq<Option<i64>>) -> (i64, i64, BoundsSource) {
    if dtw_complete(dtw) && dtw_least(dtw) < dtw_greatest(dtw) {
        (ms_of(dtw_least(dtw) as int), ms_of(dtw_greatest(dtw) as int), BoundsSource::Dtw)
    } else if t0 != i64::MIN && t1 != i64::MIN {
        (ms_of(t0 as int), ms_of(t1 as int), BoundsSource::Segment)
    } else {
        (i64::MIN, i64::MAX, BoundsSource::Wholeclip)
    }
}

/// The time bounds of a segment and where they came from.
pub fn compute_bounds(seg_t0_cs: i64, seg_t1_cs: i64, dtw_cs: &[Option<i64>]) -> (bounds: (
    i64,
    i64,
    BoundsSource,
))
    ensures
        bounds == bounds_of(seg_t0_cs, seg_t1_cs, dtw_cs@),
{
    if dtw_cs.len() > 0 {
        let mut complete: bool = true;
        let mut lo: i64 = 0;
        let mut hi: i64 = 0;
        let mut i: usize = 0;
        while i < dtw_cs.len() && complete
            invariant
                i <= dtw_cs@.len(),
                complete == forall|j: int| 0 <= j < i ==> (#[trigger] dtw_cs@[j]) is Some,
                complete && i > 0 ==> lo == dtw_least(dtw_cs@.take(i as int)) && hi
                    == dtw_greatest(dtw_cs@.take(i as int)),
            decreases dtw_cs@.len() - i,
        {
            proof {
                assert(dtw_cs@.take(i + 1).drop_last() =~= dtw_cs@.take(i as int));
                assert(dtw_cs@.take(i + 1).last() == dtw_cs@[i as int]);
            }
            match dtw_cs[i] {
                Some(v) => {
                    if i == 0 || v < lo {
                        lo = v;
                    }
                    if i == 0 || v > hi {
                        hi = v;
                    }
                },
                None => {
                    complete = false;
                },
            }
            i += 1;
        }
        assert(complete ==> dtw_cs@.take(i as int) =~= dtw_cs@);
        if complete && lo < hi {
            return (cs_to_ms(lo), cs_to_ms(hi), BoundsSource::Dtw);
        }
    }
    if seg_t0_cs != i64::MIN && seg_t1_cs != i64::MIN {
        return (cs_to_ms(seg_t0_cs), cs_to_ms(seg_t1_cs), BoundsSource::Segment);
    }
    (i64::MIN, i64::MAX, BoundsSource::Wholeclip)
}

/// The bounds come from the best source that there is. Token timestamps count
/// if every token has one and two of them differ: then the bounds are the
/// earliest and the latest. Otherwise they are the segment's own times,
/// whatever those are, and only if one of the two is the sentinel for an
/// unknown time are they unknown. A centisecond is ten milliseconds, saturated.
pub proof fn bounds_come_from_the_best_source(t0: i64, t1: i64, dtw: Seq<Option<i64>>)
    ensures
        ({
            let (start, end, source) = bounds_of(t0, t1, dtw);
            let usable = {
                &&& forall|i: int| 0 <= i < dtw.len() ==> (#[trigger] dtw[i]) is Some
                &&& exists|i: int, j: int|
                    0 <= i < dtw.len() && 0 <= j < dtw.len() && (#[trigger] dtw[i])->0 != (
                    #[trigger] dtw[j])->0
            };
            let ms = |cs: i64|
                {
                    if cs * 10 > i64::MAX {
                        i64::MAX as int
                    } else if cs * 10 < i64::MIN {
                        i64::MIN as int
                    } else {
                        cs * 10
                    }
                };
            &&& source is Dtw <==> usable
            &&& usable ==> exists|i: int, j: int|
                {
                    &&& 0 <= i < dtw.len() && 0 <= j < dtw.len()
                    &&& forall|k: int|
                        0 <= k < dtw.len() ==> dtw[i]->0 <= (#[trigger] dtw[k])->0 <= dtw[j]->0
                    &&& start == ms((#[trigger] dtw[i])->0)
                    &&& end == ms((#[trigger] dtw[j])->0)
                }
            &&& source is Segment <==> !usable && t0 != i64::MIN && t1 != i64::MIN
            &&& source is Segment ==> start == ms(t0) && end == ms(t1)
            &&& source is Wholeclip <==> !usable && (t0 == i64::MIN || t1 == i64::MIN)
            &&& source is Wholeclip ==> start == i64::MIN && end == i64::MAX
        }),
{
    if dtw_complete(dtw) {
        let (i, j) = lemma_extremes(dtw);
        if dtw_least(dtw) < dtw_greatest(dtw) {
            assert(dtw[i]->0 != dtw[j]->0);
        }
    }
}

proof fn lemma_extremes(dtw: Seq<Option<i64>>) -> (at: (int, int))
    requires
        dtw_complete(dtw),
    ensures
        0 <= at.0 < dtw.len(),
        0 <= at.1 < dtw.len(),
        dtw[at.0]->0 == dtw_least(dtw),
        dtw[at.1]->0 == dtw_greatest(dtw),
        forall|k: int|
            0 <= k < dtw.len() ==> dtw[at.0]->0 <= (#[trigger] dtw[k])->0 <= dtw[at.1]->0,
        dtw_least(dtw) < dtw_greatest(dtw) <==> exists|i: int, j: int|
            0 <= i < dtw.len() && 0 <= j < dtw.len() && (#[trigger] dtw[i])->0 != (
            #[trigger] dtw[j])->0,
{
    dtw_bounds_span_the_tokens(dtw);
    let i = choose|i: int| 0 <= i < dtw.len() && (#[trigger] dtw[i])->0 == dtw_least(dtw);
    let j = choose|j: int| 0 <= j < dtw.len() && (#[trigger] dtw[j])->0 == dtw_greatest(dtw);
    assert(dtw[i]->0 == dtw_least(dtw) && dtw[j]->0 == dtw_greatest(dtw));
    (i, j)
}

/// The bounds of a segment are those of each of its runs: where the token
/// timestamps cannot be used and both of the segment's times are known, every run
/// has exactly these, in milliseconds. The bounds of a run are unknown only where
/// one of its segment's times is.
pub proof fn runs_have_the_times_of_their_segment(
    segment: SegmentView,
    idx: int,
    hint: Option<Lang>,
    k: int,
)
    requires
        0 <= k < segment_runs(segment, idx, hint).len(),
    ensures
        ({
            let run = segment_runs(segment, idx, hint)[k];
            let unusable = (exists|i: int|
                0 <= i < segment.dtw.len() && (#[trigger] segment.dtw[i]) is None) || (
            forall|i: int, j: int|
                0 <= i < segment.dtw.len() && 0 <= j < segment.dtw.len() ==> (
                #[trigger] segment.dtw[i])->0 == (#[trigger] segment.dtw[j])->0);
            &&& unusable && segment.t0 != i64::MIN && segment.t1 != i64::MIN ==> {
                &&& run.bounds_source is Segment
                &&& i64::MIN <= segment.t0 * 10 <= i64::MAX ==> run.audio_t0_ms == segment.t0 * 10
                &&& i64::MIN <= segment.t1 * 10 <= i64::MAX ==> run.audio_t1_ms == segment.t1 * 10
            }
            &&& run.bounds_source is Wholeclip ==> unusable && (segment.t0 == i64::MIN
                || segment.t1 == i64::MIN)
            &&& run.bounds_source is Dtw ==> !unusable
        }),
{
    bounds_come_from_the_best_source(segment.t0, segment.t1, segment.dtw);
}

/// A stretch `[lo, hi)` of characters in one language.
pub struct Stretch {
    /// First character.
    pub lo: int,
    /// One past the last character.
    pub hi: int,
    /// Its language.
    pub language: Lang,
}

/// The classes of a text's characters, given the language hint.
pub open spec fn classes_of(chars: Seq<char>, hint: Option<Lang>) -> Seq<CharClass> {
    Seq::new(
        chars.len(),
        |i: int| script::class_of(chars[i], script::context_of(chars), hint),
    )
}

/// Position of the first concrete character from `from` on, or the length of
/// the text.
pub open spec fn first_concrete(classes: Seq<CharClass>, from: int) -> int
    decreases classes.len() - from,
{
    if from >= classes.len() {
        classes.len() as int
    } else if classes[from] is Lang {
        from
    } else {
        first_concrete(classes, from + 1)
    }
}

/// Position of the first character of another language from `from` on, or the
/// length of the text.
pub open spec fn next_change(classes: Seq<CharClass>, from: int, language: Lang) -> int
    decreases classes.len() - from,
{
    if from >= classes.len() {
        classes.len() as int
    } else if classes[from] matches CharClass::Lang(other) && !language.same(other) {
        from
    } else {
        next_change(classes, from + 1, language)
    }
}

/// Up to the first concrete character every character is carried.
pub proof fn lemma_first_concrete(classes: Seq<CharClass>, from: int)
    requires
        0 <= from <= classes.len(),
    ensures
        from <= first_concrete(classes, from) <= classes.len(),
        first_concrete(classes, from) < classes.len() ==> classes[first_concrete(
            classes,
            from,
        )] is Lang,
        forall|i: int|
            from <= i < first_concrete(classes, from) ==> (#[trigger] classes[i]) is Carry,
    decreases classes.len() - from,
{
    if from < classes.len() && classes[from] !is Lang {
        lemma_first_concrete(classes, from + 1);
    }
}

/// Up to the next change every concrete character is in the same language, and
/// there another language stands.
pub proof fn lemma_next_change(classes: Seq<CharClass>, from: int, language: Lang)
    requires
        0 <= from <= classes.len(),
    ensures
        from <= next_change(classes, from, language) <= classes.len(),
        next_change(classes, from, language) < classes.len() ==> (classes[next_change(
            classes,
            from,
            language,
        )] matches CharClass::Lang(other) && !language.same(other)),
        forall|i: int|
            from <= i < next_change(classes, from, language) ==> ((
            #[trigger] classes[i]) matches CharClass::Lang(other) ==> language.same(other)),
    decreases classes.len() - from,
{
    if from < classes.len() && !(classes[from] matches CharClass::Lang(other) && !language.same(
        other,
    )) {
        lemma_next_change(classes, from + 1, language);
    }
}

/// The stretches of a text from position `lo` on: each starts where the one
/// before it ended, takes the language of its first concrete character and
/// ends before the next character of another language.
pub open spec fn stretches(classes: Seq<CharClass>, lo: int) -> Seq<Stretch>
    decreases classes.len() - lo,
{
    let first = first_concrete(classes, lo);
    if !(0 <= lo <= first < classes.len()) {
        Seq::empty()
    } else {
        let language = classes[first]->Lang_0;
        let hi = next_change(classes, first + 1, language);
        proof {
            lemma_next_change(classes, first + 1, language);
        }
        seq![Stretch { lo, hi, language }] + stretches(classes, hi)
    }
}

/// The runs of a segment.
pub open spec fn segment_runs(segment: SegmentView, idx: int, hint: Option<Lang>) -> Seq<RunView> {
    runs_of_stretches(
        stretches(classes_of(segment.text, hint), 0),
        segment.text,
        bounds_of(segment.t0, segment.t1, segment.dtw),
        saturated_idx(idx),
    )
}

/// A segment index as an `i32`, saturated.
pub open spec fn saturated_idx(idx: int) -> i32 {
    if idx <= i32::MAX {
        idx as i32
    } else {
        i32::MAX
    }
}

/// The runs of a list of segments, one segment after the other.
pub open spec fn runs_of(segments: Seq<SegmentView>, hint: Option<Lang>) -> Seq<RunView>
    decreases segments.len(),
{
    if segments.len() == 0 {
        Seq::empty()
    } else {
        runs_of(segments.drop_last(), hint) + segment_runs(
            segments.last(),
            segments.len() - 1,
            hint,
        )
    }
}

/// What a list of segments says.
pub open spec fn models<S: SegmentLike>(segments: Seq<S>) -> Seq<SegmentView> {
    segments.map_values(|segment: S| segment.model())
}

/// Runs and segments are viewed one by one.
pub proof fn lists_are_viewed_one_by_one<S: SegmentLike>(
    runs: Seq<Run>,
    segments: Seq<S>,
    i: int,
)
    ensures
        run_views(runs).len() == runs.len(),
        0 <= i < runs.len() ==> run_views(runs)[i] == runs[i]@,
        models(segments).len() == segments.len(),
        0 <= i < segments.len() ==> models(segments)[i] == segments[i].model(),
{
}

/// Append a run, unless its text is empty.
fn push_run(
    runs: &mut Vec<Run>,
    language: Lang,
    text: &str,
    audio_t0_ms: i64,
    audio_t1_ms: i64,
    source_segment_idx: i32,
    bounds_source: BoundsSource,
)
    ensures
        run_views(final(runs)@) == if text@.len() == 0 {
            run_views(old(runs)@)
        } else {
            run_views(old(runs)@).push(
                RunView {
                    language,
                    text: text@,
                    audio_t0_ms,
                    audio_t1_ms,
                    source_segment_idx,
                    bounds_source,
                },
            )
        },
{
    if text.is_empty() {
        return;
    }
    runs.push(
        Run::new(
            language,
            text::smol_str(text),
            audio_t0_ms,
            audio_t1_ms,
            source_segment_idx,
            bounds_source,
        ),
    );
    assert(run_views(runs@) =~= run_views(old(runs)@).push(runs@.last()@));
}

/// The hint by value.
pub open spec fn owned_hint(hint: Option<&Lang>) -> Option<Lang> {
    match hint {
        Some(lang) => Some(*lang),
        None => None,
    }
}

/// Where the walk through a text stands: the characters from `run_start` to
/// `at` are those of the run under construction, in the language `current` if
/// one of them is concrete.
spec fn walking(classes: Seq<CharClass>, run_start: int, at: int, current: Option<Lang>) -> bool {
    let first = first_concrete(classes, run_start);
    &&& 0 <= run_start <= at <= classes.len()
    &&& match current {
        None => at <= first,
        Some(active) => {
            &&& run_start <= first < at
            &&& classes[first] == CharClass::Lang(active)
            &&& at <= next_change(classes, first + 1, active)
        },
    }
}

proof fn lemma_walk_on(classes: Seq<CharClass>, run_start: int, at: int, current: Option<Lang>)
    requires
        walking(classes, run_start, at, current),
        at < classes.len(),
    ensures
        match (current, classes[at]) {
            (_, CharClass::Carry) => walking(classes, run_start, at + 1, current),
            (None, CharClass::Lang(lang)) => walking(classes, run_start, at + 1, Some(lang)),
            (Some(active), CharClass::Lang(lang)) => if active.same(lang) {
                walking(classes, run_start, at + 1, current)
            } else {
                &&& walking(classes, at, at + 1, Some(lang))
                &&& stretches(classes, run_start) == seq![
                    Stretch { lo: run_start, hi: at, language: active },
                ] + stretches(classes, at)
            },
        },
{
    let first = first_concrete(classes, run_start);
    lemma_first_concrete(classes, run_start);
    match current {
        None => {
            if classes[at] is Lang {
                assert(first == at);
                lemma_next_change(classes, at + 1, classes[at]->Lang_0);
            }
        },
        Some(active) => {
            lemma_next_change(classes, first + 1, active);
            if classes[at] matches CharClass::Lang(lang) && !active.same(lang) {
                assert(next_change(classes, first + 1, active) == at);
                lemma_next_change(classes, at + 1, classes[at]->Lang_0);
            }
        },
    }
}

proof fn lemma_walk_end(classes: Seq<CharClass>, run_start: int, current: Option<Lang>)
    requires
        walking(classes, run_start, classes.len() as int, current),
    ensures
        stretches(classes, run_start) == match current {
            None => Seq::<Stretch>::empty(),
            Some(active) => seq![
                Stretch { lo: run_start, hi: classes.len() as int, language: active },
            ],
        },
{
    lemma_first_concrete(classes, run_start);
    if current is Some {
        let first = first_concrete(classes, run_start);
        lemma_next_change(classes, first + 1, current->0);
        assert(stretches(classes, classes.len() as int) =~= Seq::empty());
        assert(stretches(classes, run_start) =~= seq![
            Stretch { lo: run_start, hi: classes.len() as int, language: current->0 },
        ]);
    }
}

/// The run of a stretch.
pub open spec fn run_of(
    stretch: Stretch,
    chars: Seq<char>,
    bounds: (i64, i64, BoundsSource),
    idx: i32,
) -> RunView {
    RunView {
        language: stretch.language,
        text: chars.subrange(stretch.lo, stretch.hi),
        audio_t0_ms: bounds.0,
        audio_t1_ms: bounds.1,
        source_segment_idx: idx,
        bounds_source: bounds.2,
    }
}

/// The runs of a list of stretches.
pub open spec fn runs_of_stretches(
    list: Seq<Stretch>,
    chars: Seq<char>,
    bounds: (i64, i64, BoundsSource),
    idx: i32,
) -> Seq<RunView> {
    list.map_values(|stretch: Stretch| run_of(stretch, chars, bounds, idx))
}

proof fn lemma_runs_of_stretches(
    stretch: Stretch,
    rest: Seq<Stretch>,
    chars: Seq<char>,
    bounds: (i64, i64, BoundsSource),
    idx: i32,
)
    ensures
        runs_of_stretches(seq![stretch] + rest, chars, bounds, idx) == seq![
            run_of(stretch, chars, bounds, idx),
        ] + runs_of_stretches(rest, chars, bounds, idx),
{
    assert(runs_of_stretches(seq![stretch] + rest, chars, bounds, idx) =~= seq![
        run_of(stretch, chars, bounds, idx),
    ] + runs_of_stretches(rest, chars, bounds, idx));
}

/// Append the runs of one segment.
fn dispatch_segment<S: SegmentLike>(
    runs: &mut Vec<Run>,
    segment: &S,
    idx: usize,
    hint: Option<&Lang>,
)
    ensures
        run_views(final(runs)@) == run_views(old(runs)@) + segment_runs(
            segment.model(),
            idx as int,
            owned_hint(hint),
        ),
{
    let chars: &str = segment.text();
    let ghost classes = classes_of(chars@, owned_hint(hint));
    let ghost all = segment_runs(segment.model(), idx as int, owned_hint(hint));
    if chars.is_empty() {
        assert(all =~= Seq::empty());
        assert(run_views(runs@) + Seq::empty() =~= run_views(runs@));
        return;
    }
    let ctx: SegmentContext = SegmentContext::from_text(chars);
    let dtw: Vec<Option<i64>> = segment.token_dtw_timestamps();
    let bounds: (i64, i64, BoundsSource) = compute_bounds(
        segment.t0(),
        segment.t1(),
        dtw.as_slice(),
    );
    let source_idx: i32 = if idx <= i32::MAX as usize {
        idx as i32
    } else {
        i32::MAX
    };
    let end: usize = chars.unicode_len();
    let mut current_lang: Option<Lang> = None;
    let mut run_start: usize = 0;
    let mut at: usize = 0;
    proof {
        assert(all == runs_of_stretches(stretches(classes, 0), chars@, bounds, source_idx));
        lemma_first_concrete(classes, 0);
    }
    for c in it: chars.chars()
        invariant
            it.seq() == chars@,
            chars@.len() == classes.len() == end,
            classes == classes_of(chars@, owned_hint(hint)),
            ctx == script::context_of(chars@),
            at == it.index(),
            walking(classes, run_start as int, at as int, current_lang),
            run_views(runs@) + runs_of_stretches(
                stretches(classes, run_start as int),
                chars@,
                bounds,
                source_idx,
            ) == run_views(old(runs)@) + all,
    {
        assert(c == chars@[at as int]);
        proof {
            lemma_walk_on(classes, run_start as int, at as int, current_lang);
        }
        if let CharClass::Lang(lang) = script::script_to_lang(c, ctx, hint) {
            let changed: bool = match &current_lang {
                Some(active) => !(*active == lang),
                None => false,
            };
            if current_lang.is_none() {
                current_lang = Some(lang);
            } else if changed {
                if let Some(active) = current_lang {
                    let ghost before = run_views(runs@);
                    proof {
                        lemma_runs_of_stretches(
                            Stretch { lo: run_start as int, hi: at as int, language: active },
                            stretches(classes, at as int),
                            chars@,
                            bounds,
                            source_idx,
                        );
                    }
                    push_run(
                        runs,
                        active,
                        chars.substring_char(run_start, at),
                        bounds.0,
                        bounds.1,
                        source_idx,
                        bounds.2,
                    );
                    assert(run_views(runs@) + runs_of_stretches(
                        stretches(classes, at as int),
                        chars@,
                        bounds,
                        source_idx,
                    ) =~= before + runs_of_stretches(
                        stretches(classes, run_start as int),
                        chars@,
                        bounds,
                        source_idx,
                    ));
                }
                run_start = at;
                current_lang = Some(lang);
            }
        }
        at += 1;
    }
    let ghost before = run_views(runs@);
    proof {
        lemma_walk_end(classes, run_start as int, current_lang);
    }
    if let Some(active) = current_lang {
        push_run(
            runs,
            active,
            chars.substring_char(run_start, end),
            bounds.0,
            bounds.1,
            source_idx,
            bounds.2,
        );
    }
    assert(run_views(runs@) =~= before + runs_of_stretches(
        stretches(classes, run_start as int),
        chars@,
        bounds,
        source_idx,
    ));
}

/// Split segments into runs of one language. `state_lang` is the language
/// hint.
pub fn dispatch_segments<S: SegmentLike>(segments: &[S], state_lang: Option<Lang>) -> (runs: Vec<
    Run,
>)
    ensures
        run_views(runs@) == runs_of(models(segments@), state_lang),
{
    let mut runs: Vec<Run> = Vec::new();
    let ghost views = models(segments@);
    let mut idx: usize = 0;
    assert(run_views(runs@) =~= runs_of(views.take(0), state_lang));
    while idx < segments.len()
        invariant
            idx <= segments@.len(),
            views == models(segments@),
            run_views(runs@) == runs_of(views.take(idx as int), state_lang),
        decreases segments@.len() - idx,
    {
        proof {
            assert(views.take(idx + 1).drop_last() =~= views.take(idx as int));
            assert(views.take(idx + 1).last() == segments@[idx as int].model());
        }
        dispatch_segment(&mut runs, &segments[idx], idx, state_lang.as_ref());
        idx += 1;
    }
    assert(views.take(idx as int) =~= views);
    runs
}

/// Every character of the text is carried.
pub open spec fn all_carried(classes: Seq<CharClass>) -> bool {
    forall|i: int| 0 <= i < classes.len() ==> (#[trigger] classes[i]) is Carry
}

/// The stretches tile the text from `lo` on, and each has the one language of
/// its concrete characters.
pub open spec fn tiles(list: Seq<Stretch>, classes: Seq<CharClass>, lo: int) -> bool {
    &&& list.len() > 0 ==> list[0].lo == lo && list.last().hi == classes.len()
    &&& forall|k: int|
        0 <= k < list.len() ==> 0 <= (#[trigger] list[k]).lo < list[k].hi <= classes.len()
    &&& forall|k: int, j: int|
        0 <= k && j == k + 1 && j < list.len() ==> (#[trigger] list[k]).hi == (
        #[trigger] list[j]).lo && !list[k].language.same(list[j].language)
    &&& forall|k: int, i: int|
        #![trigger list[k], classes[i]]
        0 <= k < list.len() && list[k].lo <= i < list[k].hi ==> (
        classes[i] matches CharClass::Lang(other) ==> list[k].language.same(other))
    &&& forall|k: int|
        0 <= k < list.len() ==> {
            let first = first_concrete(classes, (#[trigger] list[k]).lo);
            first < list[k].hi && classes[first] == CharClass::Lang(list[k].language)
        }
    &&& forall|k: int|
        1 <= k < list.len() ==> classes[(#[trigger] list[k]).lo] == CharClass::Lang(
            list[k].language,
        )
}

proof fn lemma_stretches_tile(classes: Seq<CharClass>, lo: int)
    requires
        0 <= lo <= classes.len(),
    ensures
        tiles(stretches(classes, lo), classes, lo),
        stretches(classes, lo).len() == 0 <==> first_concrete(classes, lo) == classes.len(),
        lo < classes.len() && classes[lo] is Lang ==> stretches(classes, lo).len() > 0
            && stretches(classes, lo)[0].language == classes[lo]->Lang_0,
    decreases classes.len() - lo,
{
    let first = first_concrete(classes, lo);
    lemma_first_concrete(classes, lo);
    if first < classes.len() {
        let language = classes[first]->Lang_0;
        let hi = next_change(classes, first + 1, language);
        lemma_next_change(classes, first + 1, language);
        lemma_stretches_tile(classes, hi);
        lemma_first_concrete(classes, hi);
        let rest = stretches(classes, hi);
        let list = stretches(classes, lo);
        assert(list == seq![Stretch { lo, hi, language }] + rest);
        assert(list[0] == (Stretch { lo, hi, language }));
        assert forall|k: int| 1 <= k < list.len() implies (#[trigger] list[k]) == rest[k - 1] by {}
        assert(language.same(language));
        if hi < classes.len() {
            assert(rest.len() > 0);
            assert(list.last() == rest.last());
        } else {
            assert(rest.len() == 0);
        }
        assert forall|k: int, j: int| 0 <= k && j == k + 1 && j < list.len() implies (
        #[trigger] list[k]).hi == (#[trigger] list[j]).lo && !list[k].language.same(
            list[j].language,
        ) by {
            if k > 0 {
                assert(list[k] == rest[k - 1]);
            }
            assert(list[j] == rest[j - 1]);
        }
        assert forall|k: int, i: int|
            #![trigger list[k], classes[i]]
            0 <= k < list.len() && list[k].lo <= i < list[k].hi implies (
        classes[i] matches CharClass::Lang(other) ==> list[k].language.same(other)) by {
            if k > 0 {
                assert(list[k] == rest[k - 1]);
            }
        }
        assert forall|k: int| 0 <= k < list.len() implies ({
            let f = first_concrete(classes, (#[trigger] list[k]).lo);
            f < list[k].hi && classes[f] == CharClass::Lang(list[k].language)
        }) by {
            if k > 0 {
                assert(list[k] == rest[k - 1]);
            }
        }
        assert forall|k: int| 1 <= k < list.len() implies classes[(#[trigger] list[k]).lo]
            == CharClass::Lang(list[k].language) by {
            assert(list[k] == rest[k - 1]);
            if k == 1 {
                assert(rest[0].lo == hi);
                assert(classes[hi] is Lang);
            }
        }
    }
}

/// The stretches of a text tile it, neighbours are in different languages, and
/// each holds concrete characters of its own language only. There is none
/// exactly where every character is carried.
pub proof fn stretches_tile_the_text(classes: Seq<CharClass>)
    ensures
        tiles(stretches(classes, 0), classes, 0),
        stretches(classes, 0).len() == 0 <==> all_carried(classes),
{
    lemma_stretches_tile(classes, 0);
    lemma_first_concrete(classes, 0);
}

/// The texts of a list of runs, one after the other.
pub open spec fn joined_text(runs: Seq<RunView>) -> Seq<char>
    decreases runs.len(),
{
    if runs.len() == 0 {
        Seq::empty()
    } else {
        joined_text(runs.drop_last()) + runs.last().text
    }
}

proof fn lemma_joined_text(
    list: Seq<Stretch>,
    classes: Seq<CharClass>,
    chars: Seq<char>,
    bounds: (i64, i64, BoundsSource),
    idx: i32,
    n: int,
)
    requires
        chars.len() == classes.len(),
        tiles(list, classes, 0),
        0 <= n <= list.len(),
    ensures
        joined_text(runs_of_stretches(list, chars, bounds, idx).take(n)) == chars.subrange(
            0,
            if n == 0 {
                0
            } else {
                list[n - 1].hi
            },
        ),
    decreases n,
{
    let runs = runs_of_stretches(list, chars, bounds, idx);
    if n == 0 {
        assert(chars.subrange(0, 0) =~= Seq::empty());
    } else {
        lemma_joined_text(list, classes, chars, bounds, idx, n - 1);
        assert(runs.take(n).drop_last() =~= runs.take(n - 1));
        assert(runs.take(n).last() == run_of(list[n - 1], chars, bounds, idx));
        if n >= 2 {
            assert(list[n - 2].hi == list[n - 1].lo);
        }
        assert(chars.subrange(0, list[n - 1].lo) + chars.subrange(list[n - 1].lo, list[n - 1].hi)
            =~= chars.subrange(0, list[n - 1].hi));
    }
}

/// No text is lost or changed: the runs of a segment, joined, give the
/// segment's text, unless all of it is carried, in which case there is no run.
pub proof fn runs_keep_the_text(segment: SegmentView, idx: int, hint: Option<Lang>)
    ensures
        ({
            let runs = segment_runs(segment, idx, hint);
            if all_carried(classes_of(segment.text, hint)) {
                runs.len() == 0
            } else {
                joined_text(runs) == segment.text
            }
        }),
{
    let classes = classes_of(segment.text, hint);
    let list = stretches(classes, 0);
    let runs = segment_runs(segment, idx, hint);
    stretches_tile_the_text(classes);
    if !all_carried(classes) {
        let bounds = bounds_of(segment.t0, segment.t1, segment.dtw);
        lemma_joined_text(
            list,
            classes,
            segment.text,
            bounds,
            saturated_idx(idx),
            list.len() as int,
        );
        assert(runs.take(list.len() as int) =~= runs);
        assert(segment.text.subrange(0, segment.text.len() as int) =~= segment.text);
    }
}

/// Neighbouring runs of a segment are in different languages, no run is empty,
/// and all of them carry the segment's index and bounds.
pub proof fn runs_alternate(segment: SegmentView, idx: int, hint: Option<Lang>)
    ensures
        ({
            let runs = segment_runs(segment, idx, hint);
            let bounds = bounds_of(segment.t0, segment.t1, segment.dtw);
            &&& forall|k: int, j: int|
                0 <= k && j == k + 1 && j < runs.len() ==> !(#[trigger] runs[k]).language.same(
                    (#[trigger] runs[j]).language,
                )
            &&& forall|k: int|
                0 <= k < runs.len() ==> {
                    &&& (#[trigger] runs[k]).text.len() > 0
                    &&& runs[k].source_segment_idx == saturated_idx(idx)
                    &&& (runs[k].audio_t0_ms, runs[k].audio_t1_ms, runs[k].bounds_source)
                        == bounds
                }
        }),
{
    let classes = classes_of(segment.text, hint);
    let list = stretches(classes, 0);
    stretches_tile_the_text(classes);
    let runs = segment_runs(segment, idx, hint);
    assert forall|k: int, j: int| 0 <= k && j == k + 1 && j < runs.len() implies !(
    #[trigger] runs[k]).language.same((#[trigger] runs[j]).language) by {
        assert(!list[k].language.same(list[j].language));
    }
    assert forall|k: int| 0 <= k < runs.len() implies (#[trigger] runs[k]).text.len() > 0 by {
        assert(list[k].lo < list[k].hi);
    }
}

/// Each run is the verbatim text between two cuts. Whatever concrete character
/// stands in it is in the run's language, and at least one such character does.
/// A text without any concrete character has no run; any other is covered from
/// its first character to its last.
pub proof fn runs_are_in_the_language_of_their_characters(
    segment: SegmentView,
    idx: int,
    hint: Option<Lang>,
) -> (cuts: Seq<int>)
    ensures
        ({
            let runs = segment_runs(segment, idx, hint);
            let chars = segment.text;
            let ctx = script::context_of(chars);
            &&& runs.len() == 0 <==> forall|i: int|
                0 <= i < chars.len() ==> script::class_of(#[trigger] chars[i], ctx, hint) is Carry
            &&& cuts.len() == runs.len() + 1
            &&& cuts[0] == 0
            &&& runs.len() > 0 ==> cuts[runs.len() as int] == chars.len()
            &&& forall|k: int|
                0 <= k < runs.len() ==> {
                    &&& 0 <= #[trigger] cuts[k] < cuts[k + 1] <= chars.len()
                    &&& runs[k].text == chars.subrange(cuts[k], cuts[k + 1])
                    &&& exists|i: int|
                        cuts[k] <= i < cuts[k + 1] && script::class_of(
                            #[trigger] chars[i],
                            ctx,
                            hint,
                        ) == CharClass::Lang(runs[k].language)
                }
            &&& forall|k: int, i: int|
                #![trigger runs[k], chars[i]]
                0 <= k < runs.len() && cuts[k] <= i < cuts[k + 1] ==> (script::class_of(
                    chars[i],
                    ctx,
                    hint,
                ) matches CharClass::Lang(lang) ==> runs[k].language.same(lang))
            &&& forall|k: int|
                1 <= k < runs.len() ==> script::class_of(chars[#[trigger] cuts[k]], ctx, hint)
                    == CharClass::Lang(runs[k].language)
        }),
{
    let classes = classes_of(segment.text, hint);
    let chars = segment.text;
    let ctx = script::context_of(chars);
    let list = stretches(classes, 0);
    let runs = segment_runs(segment, idx, hint);
    stretches_tile_the_text(classes);
    let cuts = Seq::new(
        (list.len() + 1) as nat,
        |k: int|
            if k == 0 {
                0
            } else {
                list[k - 1].hi
            },
    );
    assert forall|k: int| 0 <= k < runs.len() implies {
        &&& 0 <= #[trigger] cuts[k] < cuts[k + 1] <= chars.len()
        &&& cuts[k] == list[k].lo
        &&& runs[k].text == chars.subrange(cuts[k], cuts[k + 1])
        &&& exists|i: int|
            cuts[k] <= i < cuts[k + 1] && script::class_of(#[trigger] chars[i], ctx, hint)
                == CharClass::Lang(runs[k].language)
    } by {
        assert(list[k].lo < list[k].hi);
        if k > 0 {
            assert(list[k - 1].hi == list[k].lo);
        }
        let first = first_concrete(classes, list[k].lo);
        lemma_first_concrete(classes, list[k].lo);
        assert(script::class_of(chars[first], ctx, hint) == classes[first]);
    }
    assert forall|k: int, i: int|
        #![trigger runs[k], chars[i]]
        0 <= k < runs.len() && cuts[k] <= i < cuts[k + 1] implies (script::class_of(
        chars[i],
        ctx,
        hint,
    ) matches CharClass::Lang(lang) ==> runs[k].language.same(lang)) by {
        assert(cuts[k] == list[k].lo);
        assert(list[k].lo <= i < list[k].hi);
        assert(classes[i] == script::class_of(chars[i], ctx, hint));
    }
    assert forall|k: int| 1 <= k < runs.len() implies script::class_of(
        chars[#[trigger] cuts[k]],
        ctx,
        hint,
    ) == CharClass::Lang(runs[k].language) by {
        assert(list[k - 1].hi == list[k].lo);
        assert(classes[list[k].lo] == CharClass::Lang(list[k].language));
    }
    if all_carried(classes) {
        assert forall|i: int| 0 <= i < chars.len() implies script::class_of(
            #[trigger] chars[i],
            ctx,
            hint,
        ) is Carry by {
            assert(classes[i] is Carry);
        }
    } else {
        let i = choose|i: int| 0 <= i < classes.len() && !((#[trigger] classes[i]) is Carry);
        assert(script::class_of(chars[i], ctx, hint) == classes[i]);
    }
    cuts
}

/// Segments beyond the largest index that a run can name are named by that index.
pub proof fn indices_saturate(idx: int)
    requires
        0 <= idx,
    ensures
        saturated_idx(idx) == vstd::math::min(idx, i32::MAX as int),
{
}

/// Runs come in the order of their segments, and each names the segment that it
/// was carved out of: the runs of the segment at `i` stand between those of the
/// segments before it and those of the segments after it.
pub proof fn runs_come_in_segment_order(
    segments: Seq<SegmentView>,
    hint: Option<Lang>,
    i: int,
)
    requires
        0 <= i < segments.len() <= i32::MAX,
    ensures
        ({
            let runs = runs_of(segments, hint);
            let lo = runs_of(segments.take(i), hint).len();
            let own = segment_runs(segments[i], i, hint);
            &&& lo + own.len() <= runs.len()
            &&& runs.subrange(lo as int, (lo + own.len()) as int) == own
            &&& forall|k: int|
                0 <= k < runs.len() ==> ((#[trigger] runs[k]).source_segment_idx == i <==> lo <= k
                    < lo + own.len())
        }),
    decreases segments.len(),
{
    let before = segments.drop_last();
    let last = segments.len() - 1;
    let runs = runs_of(segments, hint);
    let own = segment_runs(segments[i], i, hint);
    runs_alternate(segments[last], last, hint);
    let tail = segment_runs(segments[last], last, hint);
    if i < last {
        runs_come_in_segment_order(before, hint, i);
        assert(before.take(i) =~= segments.take(i));
        let lo = runs_of(segments.take(i), hint).len();
        assert(runs.subrange(lo as int, (lo + own.len()) as int) =~= own) by {
            let earlier = runs_of(before, hint);
            assert(earlier.subrange(lo as int, (lo + own.len()) as int) =~= own);
            assert forall|k: int| 0 <= k < own.len() implies runs[lo + k] == #[trigger] own[k] by {
                assert(earlier.subrange(lo as int, (lo + own.len()) as int)[k] == own[k]);
            }
        }
        assert forall|k: int| 0 <= k < runs.len() implies ((
        #[trigger] runs[k]).source_segment_idx == i <==> lo <= k < lo + own.len()) by {
            let n = runs_of(before, hint).len();
            if k < n {
                assert(runs[k] == runs_of(before, hint)[k]);
            } else {
                assert(runs[k] == tail[k - n]);
            }
        }
    } else {
        assert(segments.take(i) =~= before);
        let n = runs_of(before, hint).len();
        assert(runs.subrange(n as int, (n + own.len()) as int) =~= own);
        lemma_sources_before(before, hint);
        assert forall|k: int| 0 <= k < runs.len() implies ((
        #[trigger] runs[k]).source_segment_idx == i <==> n <= k < n + own.len()) by {
            if k < n {
                assert(runs[k] == runs_of(before, hint)[k]);
            } else {
                assert(runs[k] == tail[k - n]);
            }
        }
    }
}

proof fn lemma_sources_before(segments: Seq<SegmentView>, hint: Option<Lang>)
    requires
        segments.len() <= i32::MAX,
    ensures
        forall|k: int|
            0 <= k < runs_of(segments, hint).len() ==> 0 <= (#[trigger] runs_of(
                segments,
                hint,
            )[k]).source_segment_idx < segments.len(),
    decreases segments.len(),
{
    if segments.len() > 0 {
        let before = segments.drop_last();
        let last = segments.len() - 1;
        let runs = runs_of(segments, hint);
        let n = runs_of(before, hint).len();
        lemma_sources_before(before, hint);
        runs_alternate(segments[last], last, hint);
        assert forall|k: int| 0 <= k < runs.len() implies 0 <= (
        #[trigger] runs[k]).source_segment_idx < segments.len() by {
            if k < n {
                assert(runs[k] == runs_of(before, hint)[k]);
            } else {
                assert(runs[k] == segment_runs(segments[last], last, hint)[k - n]);
            }
        }
    }
}

/// Where token timestamps are the source of the bounds, no token lies outside
/// of them, and some token lies on each.
pub proof fn dtw_bounds_span_the_tokens(dtw: Seq<Option<i64>>)
    requires
        dtw_complete(dtw),
    ensures
        forall|i: int|
            0 <= i < dtw.len() ==> dtw_least(dtw) <= (#[trigger] dtw[i])->0 <= dtw_greatest(dtw),
        exists|i: int| 0 <= i < dtw.len() && (#[trigger] dtw[i])->0 == dtw_least(dtw),
        exists|i: int| 0 <= i < dtw.len() && (#[trigger] dtw[i])->0 == dtw_greatest(dtw),
    decreases dtw.len(),
{
    let n = dtw.len() - 1;
    if dtw.len() == 1 {
        assert(dtw[0]->0 == dtw_least(dtw));
    } else {
        let before = dtw.drop_last();
        assert forall|i: int| 0 <= i < before.len() implies (#[trigger] before[i]) is Some by {
            assert(dtw[i] is Some);
        }
        dtw_bounds_span_the_tokens(before);
        assert(dtw[n] == dtw.last());
        assert forall|i: int| 0 <= i < dtw.len() implies dtw_least(dtw) <= (#[trigger] dtw[i])->0
            <= dtw_greatest(dtw) by {
            if i < n {
                assert(before[i] == dtw[i]);
            }
        }
        let lo = choose|i: int|
            0 <= i < before.len() && (#[trigger] before[i])->0 == dtw_least(before);
        let hi = choose|i: int|
            0 <= i < before.len() && (#[trigger] before[i])->0 == dtw_greatest(before);
        assert(dtw[lo] == before[lo] && dtw[hi] == before[hi]);
    }
}

impl Run {
    /// Its language.
    #[must_use]
    pub fn language(&self) -> (language: &Lang)
        ensures
            *language == self@.language,
    {
        &self.language
    }

    /// Its text, verbatim.
    #[must_use]
    pub fn text(&self) -> (verbatim: &str)
        ensures
            verbatim@ == self@.text,
    {
        self.text.as_str()
    }

    /// Start, in milliseconds.
    #[must_use]
    pub fn audio_t0_ms(&self) -> (ms: i64)
        ensures
            ms == self@.audio_t0_ms,
    {
        self.audio_t0_ms
    }

    /// End, in milliseconds.
    #[must_use]
    pub fn audio_t1_ms(&self) -> (ms: i64)
        ensures
            ms == self@.audio_t1_ms,
    {
        self.audio_t1_ms
    }

    /// Index of the segment that it was carved out of.
    #[must_use]
    pub fn source_segment_idx(&self) -> (idx: i32)
        ensures
            idx == self@.source_segment_idx,
    {
        self.source_segment_idx
    }

    /// Where the bounds came from.
    #[must_use]
    pub fn bounds_source(&self) -> (source: BoundsSource)
        ensures
            source == self@.bounds_source,
    {
        self.bounds_source
    }

    /// Replace the language, consuming the run.
    #[must_use]
    pub fn with_language(self, language: Lang) -> (run: Run)
        ensures
            run@ == (RunView { language, ..self@ }),
    {
        let mut run: Run = self;
        run.language = language;
        run
    }

    /// Replace the language in place.
    pub fn set_language(&mut self, language: Lang)
        ensures
            final(self)@ == (RunView { language, ..old(self)@ }),
    {
        self.language = language;
    }

    /// Replace the text, consuming the run.
    #[must_use]
    pub fn with_text(self, text: SmolStr) -> (run: Run)
        ensures
            run@ == (RunView { text: text::smol_str_chars(text), ..self@ }),
    {
        let mut run: Run = self;
        run.text = text;
        run
    }

    /// Replace the text in place.
    pub fn set_text(&mut self, text: SmolStr)
        ensures
            final(self)@ == (RunView { text: text::smol_str_chars(text), ..old(self)@ }),
    {
        self.text = text;
    }

    /// Replace the start time, consuming the run.
    #[must_use]
    pub fn with_audio_t0_ms(self, audio_t0_ms: i64) -> (run: Run)
        ensures
            run@ == (RunView { audio_t0_ms, ..self@ }),
    {
        let mut run: Run = self;
        run.audio_t0_ms = audio_t0_ms;
        run
    }

    /// Replace the start time in place.
    pub fn set_audio_t0_ms(&mut self, audio_t0_ms: i64)
        ensures
            final(self)@ == (RunView { audio_t0_ms, ..old(self)@ }),
    {
        self.audio_t0_ms = audio_t0_ms;
    }

    /// Replace the end time, consuming the run.
    #[must_use]
    pub fn with_audio_t1_ms(self, audio_t1_ms: i64) -> (run: Run)
        ensures
            run@ == (RunView { audio_t1_ms, ..self@ }),
    {
        let mut run: Run = self;
        run.audio_t1_ms = audio_t1_ms;
        run
    }

    /// Replace the end time in place.
    pub fn set_audio_t1_ms(&mut self, audio_t1_ms: i64)
        ensures
            final(self)@ == (RunView { audio_t1_ms, ..old(self)@ }),
    {
        self.audio_t1_ms = audio_t1_ms;
    }

    /// Replace the segment index, consuming the run.
    #[must_use]
    pub fn with_source_segment_idx(self, source_segment_idx: i32) -> (run: Run)
        ensures
            run@ == (RunView { source_segment_idx, ..self@ }),
    {
        let mut run: Run = self;
        run.source_segment_idx = source_segment_idx;
        run
    }

    /// Replace the segment index in place.
    pub fn set_source_segment_idx(&mut self, source_segment_idx: i32)
        ensures
            final(self)@ == (RunView { source_segment_idx, ..old(self)@ }),
    {
        self.source_segment_idx = source_segment_idx;
    }

    /// Replace the bounds source, consuming the run.
    #[must_use]
    pub fn with_bounds_source(self, bounds_source: BoundsSource) -> (run: Run)
        ensures
            run@ == (RunView { bounds_source, ..self@ }),
    {
        let mut run: Run = self;
        run.bounds_source = bounds_source;
        run
    }

    /// Replace the bounds source in place.
    pub fn set_bounds_source(&mut self, bounds_source: BoundsSource)
        ensures
            final(self)@ == (RunView { bounds_source, ..old(self)@ }),
    {
        self.bounds_source = bounds_source;
    }
}

} // verus!
