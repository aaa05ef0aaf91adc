//! One chunk's alignment job: which aligner sees which audio, in what order,
//! and what the job gives in the end.
//!
//! The aligners themselves are the driver's. It asks [`RunDispatch`] for the
//! next request, runs the aligner it names, and hands back what that gave,
//! until there is no request left.

use core::time::Duration;

use vstd::prelude::*;
use vstd::string::StringExecFns;

use crate::align::script_dispatch;
use crate::align::script_dispatch::{BoundsSource, Run, RunView};
use crate::binary32::Binary32;
use crate::lang::Lang;
use crate::machine::command::AlignmentResult;
use crate::text;
use crate::time;
use crate::time::{TimeRange, Timebase};
use crate::types;
use crate::types::{AlignmentFailureKind, ChunkId, Word, WordView, WorkFailure, WorkerKind};

verus! {

/// What an alignment worker sends back.
pub type AlignResultMsg = (ChunkId, Result<AlignmentResult, WorkFailure>);

/// What becomes of text in a language that no aligner is registered for.
#[derive(Clone, Copy, Debug, PartialEq, Eq, Structural)]
pub enum AlignmentFallback {
    /// It stays without aligned words.
    SkipChunk,
    /// The job fails.
    Error,
}

/// What the registry of aligners holds for a language.
#[derive(Clone, Copy, Debug, PartialEq, Eq, Structural)]
pub enum AlignmentLookup {
    /// An aligner of the language itself.
    Hit,
    /// None of its own, but one for any language.
    AnyFallback,
    /// None.
    Miss {
        /// What becomes of the text.
        fallback: AlignmentFallback,
    },
}

impl AlignmentLookup {
    /// An aligner is registered.
    pub open spec fn found(self) -> bool {
        self !is Miss
    }
}

/// What the registry holds for a language: an aligner of its own comes before
/// one for any language, and only where there is neither the fallback counts.
pub fn resolve_lookup(own: bool, any: bool, fallback: AlignmentFallback) -> (lookup: AlignmentLookup)
    ensures
        lookup == looked_up(own, any, fallback),
{
    if own {
        AlignmentLookup::Hit
    } else if any {
        AlignmentLookup::AnyFallback
    } else {
        AlignmentLookup::Miss { fallback }
    }
}

/// What the registry holds for a language, given whether it holds an aligner of
/// its own and one for any language.
pub open spec fn looked_up(
    own: bool,
    any: bool,
    fallback: AlignmentFallback,
) -> AlignmentLookup {
    if own {
        AlignmentLookup::Hit
    } else if any {
        AlignmentLookup::AnyFallback
    } else {
        AlignmentLookup::Miss { fallback }
    }
}

/// The fallback counts only where no aligner can be had, and the aligner of the
/// language itself is always preferred.
pub proof fn own_aligners_come_first(own: bool, any: bool, fallback: AlignmentFallback)
    ensures
        looked_up(own, any, fallback) is Hit <==> own,
        looked_up(own, any, fallback) is Miss <==> !own && !any,
        looked_up(own, any, fallback) matches AlignmentLookup::Miss { fallback: kept }
            ==> kept == fallback,
        looked_up(own, any, fallback).found() <==> own || any,
{
}

/// Of all failures only two leave the recognised text standing: that no path
/// fits the audio, and that no text was left to align. The message and the
/// language make no difference.
pub proof fn only_failures_of_the_data_are_recoverable(failure: WorkFailure)
    ensures
        match failure {
            WorkFailure::AsrFailed { .. } => !recoverable(failure),
            WorkFailure::LanguageUnsupportedForAlignment { .. } => !recoverable(failure),
            WorkFailure::WorkerHangTimeout { .. } => !recoverable(failure),
            WorkFailure::AlignmentFailed { kind, .. } => match kind {
                AlignmentFailureKind::ModelInferenceFailed => !recoverable(failure),
                AlignmentFailureKind::TokenizationFailed => !recoverable(failure),
                AlignmentFailureKind::NormalizationFailed => !recoverable(failure),
                AlignmentFailureKind::NoAlignmentPath => recoverable(failure),
                AlignmentFailureKind::EmptyText => recoverable(failure),
            },
        },
{
}

/// The failure depends on the data alone: there was no alignment path, or no
/// text.
pub open spec fn recoverable(failure: WorkFailure) -> bool {
    failure matches WorkFailure::AlignmentFailed { kind, .. } && (kind
        == AlignmentFailureKind::NoAlignmentPath || kind == AlignmentFailureKind::EmptyText)
}

/// Whether a failure leaves the recognised text standing. Failures that point
/// at a broken model, tokenizer, normaliser, worker or registry do not.
pub fn alignment_failure_is_recoverable(failure: &WorkFailure) -> (r: bool)
    ensures
        r == recoverable(*failure),
{
    match failure {
        WorkFailure::AlignmentFailed { kind, .. } => match kind {
            AlignmentFailureKind::NoAlignmentPath => true,
            AlignmentFailureKind::EmptyText => true,
            _ => false,
        },
        _ => false,
    }
}

/// How the runs of a chunk came by their bounds, and how many had no aligner.
#[derive(Clone, Copy, Debug, PartialEq, Eq, Structural)]
pub struct BoundsSourceCounters {
    runs_total: usize,
    runs_dtw: usize,
    runs_segment: usize,
    runs_wholeclip: usize,
    runs_unaligned: usize,
}

/// What [`BoundsSourceCounters`] say.
#[verifier::ext_equal]
pub struct CountersView {
    /// Runs seen.
    pub total: int,
    /// Those with bounds from token timestamps.
    pub dtw: int,
    /// Those with bounds from their segment.
    pub segment: int,
    /// Those with unknown bounds.
    pub wholeclip: int,
    /// Those without an aligner.
    pub unaligned: int,
}

impl View for BoundsSourceCounters {
    type V = CountersView;

    closed spec fn view(&self) -> CountersView {
        CountersView {
            total: self.runs_total as int,
            dtw: self.runs_dtw as int,
            segment: self.runs_segment as int,
            wholeclip: self.runs_wholeclip as int,
            unaligned: self.runs_unaligned as int,
        }
    }
}

impl CountersView {
    /// Nothing seen.
    pub open spec fn zero() -> CountersView {
        CountersView { total: 0, dtw: 0, segment: 0, wholeclip: 0, unaligned: 0 }
    }

    /// One more run seen.
    pub open spec fn with_bounds(self, source: BoundsSource) -> CountersView {
        let seen = CountersView { total: self.total + 1, ..self };
        match source {
            BoundsSource::Dtw => CountersView { dtw: self.dtw + 1, ..seen },
            BoundsSource::Segment => CountersView { segment: self.segment + 1, ..seen },
            BoundsSource::Wholeclip => CountersView { wholeclip: self.wholeclip + 1, ..seen },
        }
    }

    /// One more run without an aligner.
    pub open spec fn with_unaligned(self) -> CountersView {
        CountersView { unaligned: self.unaligned + 1, ..self }
    }

    /// The sources add up to the runs seen.
    pub open spec fn consistent(self) -> bool {
        &&& self.dtw >= 0
        &&& self.segment >= 0
        &&& self.wholeclip >= 0
        &&& self.unaligned >= 0
        &&& self.total == self.dtw + self.segment + self.wholeclip
    }
}

impl Default for BoundsSourceCounters {
    fn default() -> (counters: BoundsSourceCounters)
        ensures
            counters@ == CountersView::zero(),
    {
        BoundsSourceCounters {
            runs_total: 0,
            runs_dtw: 0,
            runs_segment: 0,
            runs_wholeclip: 0,
            runs_unaligned: 0,
        }
    }
}

impl BoundsSourceCounters {
    /// Count a run by the source of its bounds.
    pub fn observe_bounds(&mut self, source: BoundsSource)
        requires
            old(self)@.consistent(),
            old(self)@.total < usize::MAX,
        ensures
            final(self)@ == old(self)@.with_bounds(source),
            final(self)@.consistent(),
    {
        self.runs_total += 1;
        match source {
            BoundsSource::Dtw => {
                self.runs_dtw += 1;
            },
            BoundsSource::Segment => {
                self.runs_segment += 1;
            },
            BoundsSource::Wholeclip => {
                self.runs_wholeclip += 1;
            },
        }
    }

    /// Count a run without an aligner.
    pub fn observe_unaligned(&mut self)
        requires
            old(self)@.unaligned < usize::MAX,
        ensures
            final(self)@ == old(self)@.with_unaligned(),
            old(self)@.consistent() ==> final(self)@.consistent(),
    {
        self.runs_unaligned += 1;
    }

    /// Runs seen.
    pub fn runs_total(&self) -> (n: usize)
        ensures
            n == self@.total,
    {
        self.runs_total
    }

    /// Runs with bounds from token timestamps.
    pub fn runs_dtw(&self) -> (n: usize)
        ensures
            n == self@.dtw,
    {
        self.runs_dtw
    }

    /// Runs with bounds from their segment.
    pub fn runs_segment(&self) -> (n: usize)
        ensures
            n == self@.segment,
    {
        self.runs_segment
    }

    /// Runs with unknown bounds.
    pub fn runs_wholeclip(&self) -> (n: usize)
        ensures
            n == self@.wholeclip,
    {
        self.runs_wholeclip
    }

    /// Runs without an aligner.
    pub fn runs_unaligned(&self) -> (n: usize)
        ensures
            n == self@.unaligned,
    {
        self.runs_unaligned
    }
}

/// The line that reports on the runs of a chunk.
pub open spec fn telemetry(chunk: nat, c: CountersView) -> Seq<char> {
    "script_dispatch chunk="@ + text::decimal(chunk) + " runs="@ + text::decimal(c.total as nat)
        + " dtw="@ + text::decimal(c.dtw as nat) + " segment="@ + text::decimal(c.segment as nat)
        + " wholeclip="@ + text::decimal(c.wholeclip as nat) + " unaligned="@ + text::decimal(
        c.unaligned as nat,
    )
}

/// The line is made of `before`, the name, the count in decimal, and `after`.
pub open spec fn stands_between(
    line: Seq<char>,
    name: Seq<char>,
    count: int,
    before: Seq<char>,
    after: Seq<char>,
) -> bool {
    line == before + name + text::decimal(count as nat) + after
}

/// Each count stands in the line behind its name, in decimal; the line starts with
/// the chunk and ends with the runs that had no aligner.
pub proof fn telemetry_names_every_count(chunk: nat, c: CountersView)
    ensures
        ({
            let line = telemetry(chunk, c);
            let none = Seq::<char>::empty();
            &&& exists|after: Seq<char>| #[trigger]
                stands_between(line, "script_dispatch chunk="@, chunk as int, none, after)
            &&& exists|before: Seq<char>, after: Seq<char>| #[trigger]
                stands_between(line, " runs="@, c.total, before, after)
            &&& exists|before: Seq<char>, after: Seq<char>| #[trigger]
                stands_between(line, " dtw="@, c.dtw, before, after)
            &&& exists|before: Seq<char>, after: Seq<char>| #[trigger]
                stands_between(line, " segment="@, c.segment, before, after)
            &&& exists|before: Seq<char>, after: Seq<char>| #[trigger]
                stands_between(line, " wholeclip="@, c.wholeclip, before, after)
            &&& exists|before: Seq<char>| #[trigger]
                stands_between(line, " unaligned="@, c.unaligned, before, none)
        }),
{
    let line = telemetry(chunk, c);
    let none = Seq::<char>::empty();
    let p0 = "script_dispatch chunk="@ + text::decimal(chunk);
    let p1 = " runs="@ + text::decimal(c.total as nat);
    let p2 = " dtw="@ + text::decimal(c.dtw as nat);
    let p3 = " segment="@ + text::decimal(c.segment as nat);
    let p4 = " wholeclip="@ + text::decimal(c.wholeclip as nat);
    let p5 = " unaligned="@ + text::decimal(c.unaligned as nat);
    assert(line =~= p0 + p1 + p2 + p3 + p4 + p5);
    assert(line =~= none + "script_dispatch chunk="@ + text::decimal(chunk) + (p1 + p2 + p3 + p4
        + p5));
    assert(stands_between(
        line,
        "script_dispatch chunk="@,
        chunk as int,
        none,
        p1 + p2 + p3 + p4 + p5,
    ));
    assert(line =~= p0 + " runs="@ + text::decimal(c.total as nat) + (p2 + p3 + p4 + p5));
    assert(stands_between(line, " runs="@, c.total, p0, p2 + p3 + p4 + p5));
    assert(line =~= (p0 + p1) + " dtw="@ + text::decimal(c.dtw as nat) + (p3 + p4 + p5));
    assert(stands_between(line, " dtw="@, c.dtw, p0 + p1, p3 + p4 + p5));
    assert(line =~= (p0 + p1 + p2) + " segment="@ + text::decimal(c.segment as nat) + (p4 + p5));
    assert(stands_between(line, " segment="@, c.segment, p0 + p1 + p2, p4 + p5));
    assert(line =~= (p0 + p1 + p2 + p3) + " wholeclip="@ + text::decimal(c.wholeclip as nat) + p5);
    assert(stands_between(line, " wholeclip="@, c.wholeclip, p0 + p1 + p2 + p3, p5));
    assert(line =~= (p0 + p1 + p2 + p3 + p4) + " unaligned="@ + text::decimal(c.unaligned as nat)
        + none);
    assert(stands_between(line, " unaligned="@, c.unaligned, p0 + p1 + p2 + p3 + p4, none));
}

/// The line that reports on the runs of a chunk.
pub fn telemetry_line(chunk_id: ChunkId, counters: &BoundsSourceCounters) -> (line: String)
    ensures
        line@ == telemetry(chunk_id.raw as nat, counters@),
{
    let mut line: String = String::from_str("script_dispatch chunk=");
    text::push_decimal(&mut line, chunk_id.as_u64());
    line.append(" runs=");
    text::push_decimal(&mut line, counters.runs_total() as u64);
    line.append(" dtw=");
    text::push_decimal(&mut line, counters.runs_dtw() as u64);
    line.append(" segment=");
    text::push_decimal(&mut line, counters.runs_segment() as u64);
    line.append(" wholeclip=");
    text::push_decimal(&mut line, counters.runs_wholeclip() as u64);
    line.append(" unaligned=");
    text::push_decimal(&mut line, counters.runs_unaligned() as u64);
    line
}

/// Analysis samples per millisecond.
pub const SAMPLES_PER_MS: u64 = 16;

/// A time in milliseconds as a sample of a chunk of `len` samples, not past its
/// end.
pub open spec fn sample_at(ms: int, len: int) -> int {
    if ms * SAMPLES_PER_MS < len {
        ms * SAMPLES_PER_MS
    } else {
        len
    }
}

/// The samples of a chunk of `len` samples that a run's bounds name; the whole
/// chunk where the bounds are unknown, negative, inverted or past the end.
pub open spec fn slice_of(run: RunView, len: int) -> (int, int) {
    let lo = sample_at(run.audio_t0_ms as int, len);
    let hi = sample_at(run.audio_t1_ms as int, len);
    if run.bounds_source == BoundsSource::Wholeclip || run.audio_t0_ms < 0 || run.audio_t1_ms
        <= run.audio_t0_ms || hi <= lo {
        (0, len)
    } else {
        (lo, hi)
    }
}

fn ms_to_sample(ms: i64, samples_len: usize) -> (sample: usize)
    requires
        ms >= 0,
    ensures
        sample == sample_at(ms as int, samples_len as int),
{
    let scaled: u128 = ms as u128 * 16;
    if scaled < samples_len as u128 {
        scaled as usize
    } else {
        samples_len
    }
}

/// The samples of a chunk that a run's bounds name. The bounds are relative to
/// the chunk, so its position in the stream makes no difference.
pub fn run_audio_slice(
    run: &Run,
    samples_len: usize,
    _chunk_first_sample_in_stream: u64,
) -> (slice: (usize, usize))
    ensures
        (slice.0 as int, slice.1 as int) == slice_of(run@, samples_len as int),
        slice.0 <= slice.1 <= samples_len,
        samples_len > 0 ==> slice.0 < slice.1,
{
    let unknown: bool = match run.bounds_source() {
        BoundsSource::Wholeclip => true,
        _ => false,
    };
    let t0: i64 = run.audio_t0_ms();
    let t1: i64 = run.audio_t1_ms();
    if unknown || t0 < 0 || t1 <= t0 {
        return (0, samples_len);
    }
    let lo: usize = ms_to_sample(t0, samples_len);
    let hi: usize = ms_to_sample(t1, samples_len);
    if hi <= lo {
        return (0, samples_len);
    }
    (lo, hi)
}

/// The part of a range inside the window `[lo, hi)`, counted from the window's
/// start; none where they do not meet.
pub open spec fn clipped(sub: TimeRange, lo: int, hi: int) -> Seq<TimeRange> {
    let start = if sub.start < lo {
        lo
    } else {
        sub.start as int
    };
    let end = if sub.end > hi {
        hi
    } else {
        sub.end as int
    };
    if end > start {
        seq![
            TimeRange {
                start: (start - lo) as i64,
                end: (end - lo) as i64,
                timebase: time::analysis_timebase(),
            },
        ]
    } else {
        Seq::empty()
    }
}

/// The parts of ranges inside a window, in order.
pub open spec fn clipped_all(subs: Seq<TimeRange>, lo: int, hi: int) -> Seq<TimeRange>
    decreases subs.len(),
{
    if subs.len() == 0 {
        Seq::empty()
    } else {
        clipped_all(subs.drop_last(), lo, hi) + clipped(subs.last(), lo, hi)
    }
}

/// Clip ranges of samples to the window `[slice_lo, slice_hi)` and count them
/// from its start.
pub fn clip_sub_segments(subs: &[TimeRange], slice_lo: usize, slice_hi: usize) -> (out: Vec<
    TimeRange,
>)
    requires
        slice_lo <= i64::MAX,
        slice_hi <= i64::MAX,
    ensures
        out@ == clipped_all(subs@, slice_lo as int, slice_hi as int),
{
    let tb: Timebase = time::analysis_timebase();
    let lo: i64 = slice_lo as i64;
    let hi: i64 = slice_hi as i64;
    let mut out: Vec<TimeRange> = Vec::new();
    let mut i: usize = 0;
    assert(out@ =~= clipped_all(subs@.take(0), lo as int, hi as int));
    while i < subs.len()
        invariant
            i <= subs@.len(),
            tb == time::analysis_timebase(),
            lo == slice_lo,
            hi == slice_hi,
            out@ == clipped_all(subs@.take(i as int), lo as int, hi as int),
        decreases subs@.len() - i,
    {
        proof {
            assert(subs@.take(i + 1).drop_last() =~= subs@.take(i as int));
            assert(subs@.take(i + 1).last() == subs@[i as int]);
        }
        let start: i64 = if subs[i].start < lo {
            lo
        } else {
            subs[i].start
        };
        let end: i64 = if subs[i].end > hi {
            hi
        } else {
            subs[i].end
        };
        if end > start {
            out.push(TimeRange::new(start - lo, end - lo, tb));
        }
        assert(out@ =~= clipped_all(subs@.take(i + 1), lo as int, hi as int));
        i += 1;
    }
    assert(subs@.take(i as int) =~= subs@);
    out
}

/// Clipping keeps exactly the speech inside the window: a sample of the window
/// lies in a given range if and only if, counted from the window's start, it
/// lies in a clipped range.
pub proof fn clipping_keeps_exactly_the_speech_in_the_window(
    subs: Seq<TimeRange>,
    lo: int,
    hi: int,
    sample: int,
)
    requires
        0 <= lo <= sample < hi <= i64::MAX,
    ensures
        (exists|k: int| 0 <= k < subs.len() && (#[trigger] subs[k]).start <= sample < subs[k].end)
            <==> (exists|k: int|
            0 <= k < clipped_all(subs, lo, hi).len() && (#[trigger] clipped_all(
                subs,
                lo,
                hi,
            )[k]).start <= sample - lo < clipped_all(subs, lo, hi)[k].end),
    decreases subs.len(),
{
    let out = clipped_all(subs, lo, hi);
    if subs.len() > 0 {
        let before = subs.drop_last();
        let earlier = clipped_all(before, lo, hi);
        let n = subs.len() - 1;
        clipping_keeps_exactly_the_speech_in_the_window(before, lo, hi, sample);
        assert(out == earlier + clipped(subs[n], lo, hi));
        if exists|k: int| 0 <= k < subs.len() && (#[trigger] subs[k]).start <= sample
            < subs[k].end {
            let k = choose|k: int|
                0 <= k < subs.len() && (#[trigger] subs[k]).start <= sample < subs[k].end;
            if k < n {
                assert(before[k].start <= sample < before[k].end);
                let j = choose|j: int|
                    0 <= j < earlier.len() && (#[trigger] earlier[j]).start <= sample - lo
                        < earlier[j].end;
                assert(out[j] == earlier[j]);
            } else {
                assert(out[earlier.len() as int] == clipped(subs[n], lo, hi)[0]);
            }
        }
        if exists|k: int|
            0 <= k < out.len() && (#[trigger] out[k]).start <= sample - lo < out[k].end {
            let k = choose|k: int|
                0 <= k < out.len() && (#[trigger] out[k]).start <= sample - lo < out[k].end;
            if k < earlier.len() {
                assert(earlier[k] == out[k]);
                let j = choose|j: int|
                    0 <= j < before.len() && (#[trigger] before[j]).start <= sample
                        < before[j].end;
                assert(subs[j] == before[j]);
            } else {
                assert(out[k] == clipped(subs[n], lo, hi)[k - earlier.len()]);
                assert(subs[n].start <= sample < subs[n].end);
            }
        }
    }
}

/// Ranges are clipped one by one and keep their order: one that has no sample in
/// the window adds nothing, and any other adds one range, in analysis samples,
/// from where it enters the window to where it leaves it.
pub proof fn each_range_is_clipped_by_itself(
    subs: Seq<TimeRange>,
    sub: TimeRange,
    lo: int,
    hi: int,
)
    requires
        0 <= lo <= i64::MAX,
        0 <= hi <= i64::MAX,
    ensures
        clipped_all(Seq::empty(), lo, hi).len() == 0,
        ({
            let before = clipped_all(subs, lo, hi);
            let after = clipped_all(subs.push(sub), lo, hi);
            let meets = exists|sample: int|
                lo <= sample < hi && #[trigger] sub.holds(sample);
            &&& !meets ==> after == before
            &&& meets ==> {
                &&& after.len() == before.len() + 1
                &&& after.take(before.len() as int) == before
                &&& after.last().start == vstd::math::max(sub.start as int, lo) - lo
                &&& after.last().end == vstd::math::min(sub.end as int, hi) - lo
                &&& after.last().timebase == (Timebase { num: 1, den: 16_000 })
            }
        }),
{
    let before = clipped_all(subs, lo, hi);
    let after = clipped_all(subs.push(sub), lo, hi);
    assert(subs.push(sub).drop_last() =~= subs);
    assert(after == before + clipped(sub, lo, hi));
    let start = vstd::math::max(sub.start as int, lo);
    let end = vstd::math::min(sub.end as int, hi);
    if start < end {
        assert(sub.holds(start));
        assert(after.take(before.len() as int) =~= before);
    } else {
        assert(after =~= before);
        assert forall|sample: int| lo <= sample < hi implies !#[trigger] sub.holds(sample) by {}
    }
}

/// A run is aligned against the audio between its bounds, sixteen samples to the
/// millisecond and not past the end of the chunk. Only where the bounds are
/// unknown, start before the chunk or hold no sample of it, it is aligned
/// against the whole chunk.
pub proof fn runs_are_aligned_between_their_bounds(run: RunView, len: int)
    requires
        len >= 0,
    ensures
        ({
            let (lo, hi) = slice_of(run, len);
            let usable = !(run.bounds_source is Wholeclip) && 0 <= run.audio_t0_ms
                < run.audio_t1_ms && run.audio_t0_ms * 16 < len;
            &&& usable ==> lo == run.audio_t0_ms * 16 && hi == vstd::math::min(
                run.audio_t1_ms * 16,
                len,
            )
            &&& !usable ==> lo == 0 && hi == len
            &&& 0 <= lo <= hi <= len
        }),
{
}

/// The request for the run at hand names that run, its audio, where that audio
/// starts in the stream, and the speech in it.
pub proof fn requests_name_the_audio_of_their_run(d: RunDispatchView)
    requires
        d.inv(),
        d.awaiting,
        0 <= d.samples_len <= i64::MAX,
        0 <= d.chunk_first <= u64::MAX,
    ensures
        ({
            let r = d.request();
            let run = d.runs[d.next];
            let whole = run.bounds_source is Wholeclip || run.audio_t0_ms < 0
                || run.audio_t1_ms <= run.audio_t0_ms || run.audio_t0_ms * 16 >= d.samples_len;
            let lo = if whole {
                0
            } else {
                run.audio_t0_ms * 16
            };
            let hi = if whole || run.audio_t1_ms * 16 > d.samples_len {
                d.samples_len
            } else {
                run.audio_t1_ms * 16
            };
            &&& r.run == d.next
            &&& r.slice == (lo, hi)
            &&& r.first_sample_in_stream == vstd::math::min(d.chunk_first + lo, u64::MAX as int)
            &&& r.sub_segments == clipped_all(d.sub_segments, lo, hi)
        }),
{
}

/// What a clipped range lies in: the window, counted from its start.
pub proof fn clipped_ranges_fit_the_window(subs: Seq<TimeRange>, lo: int, hi: int)
    requires
        0 <= lo <= hi <= i64::MAX,
    ensures
        clipped_all(subs, lo, hi).len() <= subs.len(),
        forall|i: int|
            0 <= i < clipped_all(subs, lo, hi).len() ==> {
                let r = #[trigger] clipped_all(subs, lo, hi)[i];
                0 <= r.start < r.end <= hi - lo
            },
    decreases subs.len(),
{
    if subs.len() > 0 {
        clipped_ranges_fit_the_window(subs.drop_last(), lo, hi);
        let before = clipped_all(subs.drop_last(), lo, hi);
        assert forall|i: int| 0 <= i < clipped_all(subs, lo, hi).len() implies {
            let r = #[trigger] clipped_all(subs, lo, hi)[i];
            0 <= r.start < r.end <= hi - lo
        } by {
            if i < before.len() {
                assert(clipped_all(subs, lo, hi)[i] == before[i]);
            }
        }
    }
}

/// The word that stands for a run without an aligner: its text, its bounds in
/// milliseconds, no confidence. Bounds before zero or inverted are drawn in.
pub open spec fn pseudo_word(run: RunView) -> WordView {
    let start = if run.audio_t0_ms < 0 {
        0i64
    } else {
        run.audio_t0_ms
    };
    let end = if run.audio_t1_ms < start {
        start
    } else {
        run.audio_t1_ms
    };
    WordView {
        text: run.text,
        range: TimeRange { start, end, timebase: Timebase { num: 1, den: 1_000 } },
        score: Binary32 { bits: 0 },
    }
}

/// The word that stands for a run without an aligner holds all of the run's text
/// verbatim, starts with the run but not before the chunk, ends with the run but
/// not before it starts, and claims no confidence.
pub proof fn pseudo_words_stand_for_their_run(run: RunView)
    ensures
        ({
            let word = pseudo_word(run);
            &&& word.text == run.text
            &&& word.range.start == vstd::math::max(run.audio_t0_ms as int, 0)
            &&& word.range.end == vstd::math::max(
                run.audio_t1_ms as int,
                vstd::math::max(run.audio_t0_ms as int, 0),
            )
            &&& word.range.timebase.num == 1
            &&& word.range.timebase.den == 1_000
            &&& word.score.bits == 0
        }),
{
}

/// The word that stands for a run without an aligner.
pub fn unsupported_language_pseudo_word(run: &Run) -> (word: Word)
    ensures
        word@ == pseudo_word(run@),
        word@.range.wf(),
{
    let start: i64 = if run.audio_t0_ms() < 0 {
        0
    } else {
        run.audio_t0_ms()
    };
    let end: i64 = if run.audio_t1_ms() < start {
        start
    } else {
        run.audio_t1_ms()
    };
    Word::new(
        text::smol_str(run.text()),
        TimeRange::new(start, end, Timebase::new(1, 1_000)),
        Binary32::zero(),
    )
}

/// What an alignment of a run gave, as far as the job depends on it.
pub type RunOutcome = Result<Seq<WordView>, WorkFailure>;

/// What an outcome says.
pub open spec fn outcome_view(outcome: Result<AlignmentResult, WorkFailure>) -> RunOutcome {
    match outcome {
        Ok(result) => Ok(result@),
        Err(failure) => Err(failure),
    }
}

/// An outcome is viewed whole: every word of a result, or the failure itself.
pub proof fn outcomes_are_viewed_whole(outcome: Result<AlignmentResult, WorkFailure>)
    ensures
        outcome matches Ok(result) ==> (outcome_view(outcome) matches Ok(words) && words.len()
            == result.words@.len() && forall|i: int|
            0 <= i < words.len() ==> #[trigger] words[i] == result.words@[i]@),
        outcome matches Err(failure) ==> outcome_view(outcome) == RunOutcome::Err(failure),
{
}

/// The alignment of one chunk, run by run.
pub struct RunDispatch {
    runs: Vec<Run>,
    lookups: Vec<AlignmentLookup>,
    sub_segments: Vec<TimeRange>,
    samples_len: usize,
    chunk_first_sample_in_stream: u64,
    next: usize,
    awaiting: bool,
    stopped: bool,
    counters: BoundsSourceCounters,
    words: Vec<Word>,
    failure: Option<WorkFailure>,
}

/// What a [`RunDispatch`] holds.
#[verifier::ext_equal]
pub struct RunDispatchView {
    /// The runs of the chunk.
    pub runs: Seq<RunView>,
    /// What the registry holds for the language of each run.
    pub lookups: Seq<AlignmentLookup>,
    /// The speech in the chunk, in samples from its start.
    pub sub_segments: Seq<TimeRange>,
    /// Number of samples of the chunk.
    pub samples_len: int,
    /// Stream position of the chunk's first sample.
    pub chunk_first: int,
    /// The run at hand.
    pub next: int,
    /// The outcome of the run at hand is awaited.
    pub awaiting: bool,
    /// The remaining runs are left out.
    pub stopped: bool,
    /// How the runs came by their bounds.
    pub counters: CountersView,
    /// The words so far.
    pub words: Seq<WordView>,
    /// Why the job failed, if it did.
    pub failure: Option<WorkFailure>,
}

impl RunDispatchView {
    /// There is a lookup for each run, each run was counted when it came up,
    /// and a run whose outcome is awaited has an aligner.
    pub open spec fn inv(self) -> bool {
        &&& self.lookups.len() == self.runs.len()
        &&& 0 <= self.next <= self.runs.len() <= usize::MAX
        &&& self.awaiting ==> self.next < self.runs.len() && self.lookups[self.next].found()
            && !self.stopped && self.failure is None
        &&& self.counters.consistent()
        &&& self.counters.unaligned <= self.counters.total
        &&& self.failure is None ==> self.counters.total == self.next + (if self.awaiting {
            1int
        } else {
            0
        })
    }

    /// No run came up yet.
    pub open spec fn fresh(
        runs: Seq<RunView>,
        lookups: Seq<AlignmentLookup>,
        sub_segments: Seq<TimeRange>,
        samples_len: int,
        chunk_first: int,
    ) -> RunDispatchView {
        RunDispatchView {
            runs,
            lookups,
            sub_segments,
            samples_len,
            chunk_first,
            next: 0,
            awaiting: false,
            stopped: false,
            counters: CountersView::zero(),
            words: Seq::empty(),
            failure: None,
        }
    }

    /// No run comes up any more.
    pub open spec fn ended(self) -> bool {
        self.stopped || self.failure is Some || self.next >= self.runs.len()
    }

    /// The next run comes up and is counted. With an aligner its outcome is
    /// awaited; without one a word stands for it, or the job fails.
    pub open spec fn stepped(self) -> RunDispatchView {
        let run = self.runs[self.next];
        let counted = RunDispatchView {
            counters: self.counters.with_bounds(run.bounds_source),
            ..self
        };
        match self.lookups[self.next] {
            AlignmentLookup::Miss { fallback: AlignmentFallback::SkipChunk } => RunDispatchView {
                next: self.next + 1,
                counters: counted.counters.with_unaligned(),
                words: self.words.push(pseudo_word(run)),
                ..counted
            },
            AlignmentLookup::Miss { fallback: AlignmentFallback::Error } => RunDispatchView {
                failure: Some(
                    WorkFailure::LanguageUnsupportedForAlignment { language: run.language },
                ),
                ..counted
            },
            _ => RunDispatchView { awaiting: true, ..counted },
        }
    }

    /// Runs come up until one's outcome is awaited or none is left.
    pub open spec fn advanced(self) -> RunDispatchView
        decreases self.runs.len() - self.next,
    {
        if self.awaiting || self.ended() {
            self
        } else if self.lookups[self.next] == (AlignmentLookup::Miss {
            fallback: AlignmentFallback::SkipChunk,
        }) {
            self.stepped().advanced()
        } else {
            self.stepped()
        }
    }

    /// The outcome of the run at hand came. Its words are taken up; a
    /// recoverable failure costs only the words of this run; any other fails
    /// the job. A run of unknown bounds took the whole chunk, so once it
    /// succeeded the remaining runs are left out.
    pub open spec fn after_outcome(self, outcome: RunOutcome) -> RunDispatchView {
        match outcome {
            Ok(words) => RunDispatchView {
                next: self.next + 1,
                awaiting: false,
                stopped: self.runs[self.next].bounds_source == BoundsSource::Wholeclip,
                words: self.words + words,
                ..self
            },
            Err(failure) => if recoverable(failure) {
                RunDispatchView { next: self.next + 1, awaiting: false, ..self }
            } else {
                RunDispatchView { awaiting: false, failure: Some(failure), ..self }
            },
        }
    }

    /// What the job gives once no run comes up any more.
    pub open spec fn outcome(self) -> RunOutcome {
        match self.failure {
            Some(failure) => RunOutcome::Err(failure),
            None => RunOutcome::Ok(self.words),
        }
    }

    /// What the aligner of the run at hand is asked for.
    pub open spec fn request(self) -> RequestView {
        let slice = slice_of(self.runs[self.next], self.samples_len);
        RequestView {
            run: self.next,
            slice,
            sub_segments: clipped_all(self.sub_segments, slice.0, slice.1),
            first_sample_in_stream: if self.chunk_first + slice.0 > u64::MAX {
                u64::MAX as int
            } else {
                self.chunk_first + slice.0
            },
        }
    }
}

/// Align one run: hand its text and its slice of the chunk's audio to the
/// aligner of its language.
#[derive(Debug)]
pub struct AlignRequest {
    /// Index of the run.
    pub run: usize,
    /// First sample of its audio.
    pub slice_lo: usize,
    /// One past the last sample of its audio.
    pub slice_hi: usize,
    /// The speech in that audio, in samples from its start.
    pub sub_segments: Vec<TimeRange>,
    /// Stream position of its first sample.
    pub first_sample_in_stream: u64,
}

/// What an [`AlignRequest`] says.
pub struct RequestView {
    /// Index of the run.
    pub run: int,
    /// The samples of its audio.
    pub slice: (int, int),
    /// The speech in that audio, in samples from its start.
    pub sub_segments: Seq<TimeRange>,
    /// Stream position of its first sample.
    pub first_sample_in_stream: int,
}

impl View for AlignRequest {
    type V = RequestView;

    open spec fn view(&self) -> RequestView {
        RequestView {
            run: self.run as int,
            slice: (self.slice_lo as int, self.slice_hi as int),
            sub_segments: self.sub_segments@,
            first_sample_in_stream: self.first_sample_in_stream as int,
        }
    }
}

impl View for RunDispatch {
    type V = RunDispatchView;

    closed spec fn view(&self) -> RunDispatchView {
        RunDispatchView {
            runs: script_dispatch::run_views(self.runs@),
            lookups: self.lookups@,
            sub_segments: self.sub_segments@,
            samples_len: self.samples_len as int,
            chunk_first: self.chunk_first_sample_in_stream as int,
            next: self.next as int,
            awaiting: self.awaiting,
            stopped: self.stopped,
            counters: self.counters@,
            words: types::word_views(self.words@),
            failure: self.failure,
        }
    }
}

impl RunDispatch {
    /// No run came up yet. `lookups` says what the registry holds for the
    /// language of each run.
    pub fn new(
        runs: Vec<Run>,
        lookups: Vec<AlignmentLookup>,
        sub_segments: Vec<TimeRange>,
        samples_len: usize,
        chunk_first_sample_in_stream: u64,
    ) -> (dispatch: RunDispatch)
        requires
            lookups@.len() == runs@.len(),
        ensures
            dispatch@.inv(),
            dispatch@ == RunDispatchView::fresh(
                script_dispatch::run_views(runs@),
                lookups@,
                sub_segments@,
                samples_len as int,
                chunk_first_sample_in_stream as int,
            ),
    {
        assert(runs@.len() == runs.len());
        let dispatch = RunDispatch {
            runs,
            lookups,
            sub_segments,
            samples_len,
            chunk_first_sample_in_stream,
            next: 0,
            awaiting: false,
            stopped: false,
            counters: BoundsSourceCounters::default(),
            words: Vec::new(),
            failure: None,
        };
        assert(dispatch@.words =~= Seq::empty());
        dispatch
    }

    /// Go on to the next run that needs an aligner. `None` once there is none;
    /// then [`RunDispatch::finish`] gives the result.
    pub fn next_request(&mut self) -> (request: Option<AlignRequest>)
        requires
            old(self)@.inv(),
            !old(self)@.awaiting,
            old(self)@.samples_len <= i64::MAX,
        ensures
            final(self)@ == old(self)@.advanced(),
            final(self)@.inv(),
            request is Some <==> final(self)@.awaiting,
            request is None ==> final(self)@.ended(),
            request matches Some(r) ==> r@ == final(self)@.request(),
    {
        while !self.stopped && self.failure.is_none() && self.next < self.runs.len()
            invariant
                self@.inv(),
                !self@.awaiting,
                self@.samples_len <= i64::MAX,
                self@.advanced() == old(self)@.advanced(),
            decreases self@.runs.len() - self@.next,
        {
            let ghost before = self@;
            let run: Run = self.runs[self.next].clone();
            assert(run@ == before.runs[before.next]);
            self.counters.observe_bounds(run.bounds_source());
            match self.lookups[self.next] {
                AlignmentLookup::Miss { fallback } => match fallback {
                    AlignmentFallback::SkipChunk => {
                        self.counters.observe_unaligned();
                        self.words.push(unsupported_language_pseudo_word(&run));
                        self.next += 1;
                        assert(self@.words =~= before.words.push(pseudo_word(run@)));
                        assert(self@ =~= before.stepped());
                    },
                    AlignmentFallback::Error => {
                        self.failure = Some(
                            WorkFailure::LanguageUnsupportedForAlignment {
                                language: run.language().clone(),
                            },
                        );
                        assert(self@ =~= before.stepped());
                        return None;
                    },
                },
                _ => {
                    self.awaiting = true;
                    assert(self@ =~= before.stepped());
                    let (slice_lo, slice_hi) = run_audio_slice(
                        &run,
                        self.samples_len,
                        self.chunk_first_sample_in_stream,
                    );
                    let first_sample_in_stream: u64 = if slice_lo as u64 > u64::MAX
                        - self.chunk_first_sample_in_stream {
                        u64::MAX
                    } else {
                        self.chunk_first_sample_in_stream + slice_lo as u64
                    };
                    return Some(
                        AlignRequest {
                            run: self.next,
                            slice_lo,
                            slice_hi,
                            sub_segments: clip_sub_segments(
                                self.sub_segments.as_slice(),
                                slice_lo,
                                slice_hi,
                            ),
                            first_sample_in_stream,
                        },
                    );
                },
            }
        }
        None
    }

    /// Take up the outcome of the last request.
    pub fn record(&mut self, outcome: Result<AlignmentResult, WorkFailure>)
        requires
            old(self)@.inv(),
            old(self)@.awaiting,
        ensures
            final(self)@ == old(self)@.after_outcome(outcome_view(outcome)),
            final(self)@.inv(),
            !final(self)@.awaiting,
    {
        self.awaiting = false;
        match outcome {
            Ok(result) => {
                let mut words: Vec<Word> = result.words;
                self.words.append(&mut words);
                assert(self@.words =~= old(self)@.words + result@);
                assert(old(self)@.runs[old(self)@.next] == self.runs@[self.next as int]@);
                self.stopped = match self.runs[self.next].bounds_source() {
                    BoundsSource::Wholeclip => true,
                    _ => false,
                };
                self.next += 1;
            },
            Err(failure) => {
                if alignment_failure_is_recoverable(&failure) {
                    self.next += 1;
                } else {
                    self.failure = Some(failure);
                }
            },
        }
    }

    /// How the runs so far came by their bounds.
    pub fn counters(&self) -> (counters: BoundsSourceCounters)
        ensures
            counters@ == self@.counters,
    {
        self.counters
    }

    /// The result of the job: the words of its runs in order, or why it failed.
    pub fn finish(self) -> (result: Result<AlignmentResult, WorkFailure>)
        requires
            self@.inv(),
            !self@.awaiting,
            self@.ended(),
        ensures
            outcome_view(result) == self@.outcome(),
    {
        match self.failure {
            Some(failure) => Err(failure),
            None => Ok(AlignmentResult { words: self.words }),
        }
    }
}

/// What to do with a chunk that has no runs.
#[derive(Debug)]
pub enum WholeChunkPlan {
    /// Align its whole text with its whole audio.
    Align,
    /// Nothing; this is the result.
    Done(Result<AlignmentResult, WorkFailure>),
}

/// What a chunk that has no runs gives without being aligned; `None` if it is to be
/// aligned.
pub open spec fn planned(lookup: AlignmentLookup, language: Lang) -> Option<RunOutcome> {
    match lookup {
        AlignmentLookup::Miss { fallback: AlignmentFallback::SkipChunk } => Some(
            RunOutcome::Ok(Seq::empty()),
        ),
        AlignmentLookup::Miss { fallback: AlignmentFallback::Error } => Some(
            RunOutcome::Err(WorkFailure::LanguageUnsupportedForAlignment { language }),
        ),
        _ => None,
    }
}

/// A chunk that has no runs is aligned wherever there is an aligner; without one
/// it gives no words if it may be skipped, and fails by its language if not.
pub proof fn whole_chunks_are_aligned_where_they_can_be(lookup: AlignmentLookup, language: Lang)
    ensures
        planned(lookup, language) is None <==> lookup is Hit || lookup is AnyFallback,
        lookup matches AlignmentLookup::Miss { fallback } ==> match fallback {
            AlignmentFallback::SkipChunk => planned(lookup, language) == Some(
                RunOutcome::Ok(Seq::empty()),
            ),
            AlignmentFallback::Error => planned(lookup, language) == Some(
                RunOutcome::Err(WorkFailure::LanguageUnsupportedForAlignment { language }),
            ),
        },
{
}

/// What to do with a chunk that has no runs, given what the registry holds for
/// its language: align it, give no words, or fail.
pub fn whole_chunk_plan(lookup: AlignmentLookup, language: &Lang) -> (plan: WholeChunkPlan)
    ensures
        match plan {
            WholeChunkPlan::Align => planned(lookup, *language) is None,
            WholeChunkPlan::Done(result) => planned(lookup, *language) == Some(
                outcome_view(result),
            ),
        },
{
    match lookup {
        AlignmentLookup::Miss { fallback } => match fallback {
            AlignmentFallback::SkipChunk => {
                let words: Vec<Word> = Vec::new();
                assert(types::word_views(words@) =~= Seq::empty());
                WholeChunkPlan::Done(Ok(AlignmentResult { words }))
            },
            AlignmentFallback::Error => WholeChunkPlan::Done(
                Err(WorkFailure::LanguageUnsupportedForAlignment { language: language.clone() }),
            ),
        },
        _ => WholeChunkPlan::Align,
    }
}

/// What a job gives in the end.
///
/// If the watchdog aborted it, it timed out, whatever came back meanwhile. A
/// recoverable failure gives no words, so that the recognised text survives.
/// Everything else stands as it is.
pub fn conclude(
    outcome: Result<AlignmentResult, WorkFailure>,
    aborted: bool,
    elapsed: Duration,
) -> (result: Result<AlignmentResult, WorkFailure>)
    ensures
        outcome_view(result) == concluded(outcome_view(outcome), aborted, elapsed),
{
    if aborted {
        return Err(WorkFailure::WorkerHangTimeout { kind: WorkerKind::Alignment, elapsed });
    }
    match outcome {
        Ok(result) => Ok(result),
        Err(failure) => if alignment_failure_is_recoverable(&failure) {
            let words: Vec<Word> = Vec::new();
            assert(types::word_views(words@) =~= Seq::empty());
            Ok(AlignmentResult { words })
        } else {
            Err(failure)
        },
    }
}

/// What a job gives in the end.
pub open spec fn concluded(outcome: RunOutcome, aborted: bool, elapsed: Duration) -> RunOutcome {
    if aborted {
        Err(WorkFailure::WorkerHangTimeout { kind: WorkerKind::Alignment, elapsed })
    } else {
        match outcome {
            Err(failure) if recoverable(failure) => Ok(Seq::empty()),
            _ => outcome,
        }
    }
}

impl RunDispatchView {
    /// The state after requests got these outcomes, in order, as long as there
    /// were requests.
    pub open spec fn driven(self, outcomes: Seq<RunOutcome>) -> RunDispatchView
        decreases outcomes.len(),
    {
        let at = self.advanced();
        if !at.awaiting || outcomes.len() == 0 {
            at
        } else {
            at.after_outcome(outcomes[0]).driven(outcomes.subrange(1, outcomes.len() as int))
        }
    }
}

/// Where runs come up, the words so far stay, and the invariant is kept.
pub proof fn advancing_keeps_the_words(d: RunDispatchView)
    requires
        d.inv(),
    ensures
        d.advanced().inv(),
        d.advanced().awaiting || d.advanced().ended(),
        d.words.len() <= d.advanced().words.len(),
        d.advanced().words.take(d.words.len() as int) == d.words,
        d.advanced().runs == d.runs,
        d.advanced().lookups == d.lookups,
    decreases d.runs.len() - d.next,
{
    if d.awaiting || d.ended() {
        assert(d.words.take(d.words.len() as int) =~= d.words);
    } else if d.lookups[d.next] == (AlignmentLookup::Miss {
        fallback: AlignmentFallback::SkipChunk,
    }) {
        let e = d.stepped();
        advancing_keeps_the_words(e);
        assert(d.advanced().words.take(d.words.len() as int) =~= d.words) by {
            assert forall|i: int| 0 <= i < d.words.len() implies d.advanced().words[i]
                == d.words[i] by {
                assert(e.advanced().words.take(e.words.len() as int)[i] == e.words[i]);
            }
        }
    } else {
        assert(d.words.take(d.words.len() as int) =~= d.words);
    }
}

/// Runs come up in order, and each is dealt with as the registry says. Those
/// passed over have no aligner and may be skipped, and each of them leaves its
/// word; the job stops for the first that has an aligner, of whatever kind, or
/// fails with the first that may not be skipped.
pub proof fn runs_come_up_in_order(d: RunDispatchView)
    requires
        d.inv(),
        !d.awaiting,
        !d.stopped,
        d.failure is None,
    ensures
        ({
            let e = d.advanced();
            &&& d.next <= e.next <= d.runs.len()
            &&& forall|k: int|
                d.next <= k < e.next ==> (#[trigger] d.lookups[k] matches AlignmentLookup::Miss {
                    fallback,
                } && fallback is SkipChunk)
            &&& e.words == d.words + Seq::new(
                (e.next - d.next) as nat,
                |i: int| pseudo_word(d.runs[d.next + i]),
            )
            &&& e.next == d.runs.len() ==> !e.awaiting && e.failure is None
            &&& e.next < d.runs.len() ==> match d.lookups[e.next] {
                AlignmentLookup::Hit => e.awaiting && e.failure is None,
                AlignmentLookup::AnyFallback => e.awaiting && e.failure is None,
                AlignmentLookup::Miss { fallback } => {
                    &&& fallback is Error
                    &&& !e.awaiting
                    &&& e.failure == Some(
                        WorkFailure::LanguageUnsupportedForAlignment {
                            language: d.runs[e.next].language,
                        },
                    )
                },
            }
            &&& !e.stopped
            &&& e.counters.unaligned == d.counters.unaligned + (e.next - d.next)
            &&& e.counters.total == d.counters.total + (e.next - d.next) + (if e.next
                < d.runs.len() {
                1int
            } else {
                0
            })
            &&& e.runs == d.runs
            &&& e.lookups == d.lookups
            &&& e.sub_segments == d.sub_segments
            &&& e.samples_len == d.samples_len
            &&& e.chunk_first == d.chunk_first
        }),
    decreases d.runs.len() - d.next,
{
    let e = d.advanced();
    if d.ended() {
        assert(e.words =~= d.words + Seq::new(
            (e.next - d.next) as nat,
            |i: int| pseudo_word(d.runs[d.next + i]),
        ));
    } else if d.lookups[d.next] == (AlignmentLookup::Miss {
        fallback: AlignmentFallback::SkipChunk,
    }) {
        let f = d.stepped();
        runs_come_up_in_order(f);
        assert(e.words =~= d.words + Seq::new(
            (e.next - d.next) as nat,
            |i: int| pseudo_word(d.runs[d.next + i]),
        ));
    } else {
        assert(e.words =~= d.words + Seq::new(
            (e.next - d.next) as nat,
            |i: int| pseudo_word(d.runs[d.next + i]),
        ));
    }
}

/// A fresh job starts at its first run, with nothing counted and without words; one
/// without runs is at its end and gives no words.
pub proof fn fresh_jobs_start_at_their_first_run(
    runs: Seq<RunView>,
    lookups: Seq<AlignmentLookup>,
    sub_segments: Seq<TimeRange>,
    samples_len: int,
    chunk_first: int,
)
    requires
        lookups.len() == runs.len() <= usize::MAX,
    ensures
        ({
            let d = RunDispatchView::fresh(runs, lookups, sub_segments, samples_len, chunk_first);
            &&& d.inv()
            &&& d.runs == runs
            &&& d.lookups == lookups
            &&& d.sub_segments == sub_segments
            &&& d.samples_len == samples_len
            &&& d.chunk_first == chunk_first
            &&& d.next == 0
            &&& !d.awaiting
            &&& d.ended() <==> runs.len() == 0
            &&& d.counters.total == 0
            &&& d.counters.unaligned == 0
            &&& d.outcome() == RunOutcome::Ok(Seq::empty())
        }),
{
}

/// Once a job failed, or a run took the whole chunk, no other run comes up.
pub proof fn ended_jobs_stay_as_they_are(d: RunDispatchView)
    requires
        d.stopped || d.failure is Some,
    ensures
        d.advanced() == d,
        d.ended(),
{
}

/// Each run that comes up is counted once, under the source of its bounds and no
/// other.
pub proof fn runs_are_counted_by_their_source(d: RunDispatchView)
    requires
        d.inv(),
        !d.awaiting,
        !d.ended(),
    ensures
        ({
            let e = d.stepped();
            let source = d.runs[d.next].bounds_source;
            &&& e.counters.total == d.counters.total + 1
            &&& source is Dtw ==> e.counters.dtw == d.counters.dtw + 1
            &&& !(source is Dtw) ==> e.counters.dtw == d.counters.dtw
            &&& source is Segment ==> e.counters.segment == d.counters.segment + 1
            &&& !(source is Segment) ==> e.counters.segment == d.counters.segment
            &&& source is Wholeclip ==> e.counters.wholeclip == d.counters.wholeclip + 1
            &&& !(source is Wholeclip) ==> e.counters.wholeclip == d.counters.wholeclip
        }),
{
}

/// What an aligner gave for a run is taken up whole, behind the words so far,
/// and the next run comes up unless this one took the whole chunk. A failure of
/// the data costs the words of this run alone; any other failure is the job's.
pub proof fn outcomes_are_taken_up(d: RunDispatchView, outcome: RunOutcome)
    requires
        d.inv(),
        d.awaiting,
    ensures
        ({
            let e = d.after_outcome(outcome);
            &&& !e.awaiting
            &&& match outcome {
                Ok(words) => {
                    &&& e.words == d.words + words
                    &&& e.next == d.next + 1
                    &&& e.failure is None
                    &&& e.stopped <==> d.runs[d.next].bounds_source is Wholeclip
                },
                Err(WorkFailure::AlignmentFailed {
                    kind: AlignmentFailureKind::NoAlignmentPath,
                    ..
                }) => e.words == d.words && e.next == d.next + 1 && e.failure is None && !e.stopped,
                Err(WorkFailure::AlignmentFailed {
                    kind: AlignmentFailureKind::EmptyText,
                    ..
                }) => e.words == d.words && e.next == d.next + 1 && e.failure is None && !e.stopped,
                Err(failure) => e.words == d.words && e.failure == Some(failure) && e.ended(),
            }
            &&& e.counters == d.counters
            &&& e.runs == d.runs
            &&& e.lookups == d.lookups
            &&& e.sub_segments == d.sub_segments
            &&& e.samples_len == d.samples_len
            &&& e.chunk_first == d.chunk_first
        }),
{
}

/// A job that the watchdog aborted timed out, whatever came back meanwhile; one
/// that it did not abort keeps its words, keeps its failure, or, where only the
/// data was at fault, gives no words.
pub proof fn jobs_conclude_by_their_outcome(
    outcome: RunOutcome,
    aborted: bool,
    elapsed: Duration,
)
    ensures
        ({
            let result = concluded(outcome, aborted, elapsed);
            &&& aborted ==> result == RunOutcome::Err(
                WorkFailure::WorkerHangTimeout { kind: WorkerKind::Alignment, elapsed },
            )
            &&& !aborted && outcome is Ok ==> result == outcome
            &&& !aborted ==> (outcome matches Err(failure) ==> match failure {
                WorkFailure::AlignmentFailed {
                    kind: AlignmentFailureKind::NoAlignmentPath,
                    ..
                } => result == RunOutcome::Ok(Seq::empty()),
                WorkFailure::AlignmentFailed { kind: AlignmentFailureKind::EmptyText, .. } => result
                    == RunOutcome::Ok(Seq::empty()),
                _ => result == outcome,
            })
        }),
{
}

/// A job that failed gives its failure, and one that did not gives its words.
pub proof fn jobs_give_their_words_or_their_failure(d: RunDispatchView)
    ensures
        d.outcome() is Ok <==> d.failure is None,
        d.outcome() matches Ok(words) ==> words == d.words,
        d.outcome() matches Err(failure) ==> d.failure == Some(failure),
{
}

/// The words of a job only grow, in the order of its runs: no outcome changes
/// or removes words that were taken up before.
pub proof fn words_only_grow(d: RunDispatchView, outcomes: Seq<RunOutcome>)
    requires
        d.inv(),
        !d.awaiting,
    ensures
        d.driven(outcomes).inv(),
        d.words.len() <= d.driven(outcomes).words.len(),
        d.driven(outcomes).words.take(d.words.len() as int) == d.words,
    decreases outcomes.len(),
{
    advancing_keeps_the_words(d);
    let at = d.advanced();
    if at.awaiting && outcomes.len() > 0 {
        let e = at.after_outcome(outcomes[0]);
        let rest = outcomes.subrange(1, outcomes.len() as int);
        words_only_grow(e, rest);
        assert(d.driven(outcomes).words.take(d.words.len() as int) =~= d.words) by {
            assert forall|i: int| 0 <= i < d.words.len() implies d.driven(outcomes).words[i]
                == d.words[i] by {
                assert(at.words.take(d.words.len() as int)[i] == d.words[i]);
                assert(e.driven(rest).words.take(e.words.len() as int)[i] == e.words[i]);
            }
        }
    }
}

/// The words of the runs from `at` on, one run after the other, where requests
/// get these outcomes in order: the aligner's words of a run that was aligned,
/// the word that stands for a run without an aligner, none of a run whose
/// alignment failed recoverably. A run that fails the job, or took the whole
/// chunk, is the last; so is one whose outcome did not come.
pub open spec fn words_of_runs(
    runs: Seq<RunView>,
    lookups: Seq<AlignmentLookup>,
    outcomes: Seq<RunOutcome>,
    at: int,
) -> Seq<WordView>
    decreases runs.len() - at,
{
    if at < 0 || at >= runs.len() {
        Seq::empty()
    } else {
        match lookups[at] {
            AlignmentLookup::Miss { fallback: AlignmentFallback::SkipChunk } => seq![
                pseudo_word(runs[at]),
            ] + words_of_runs(runs, lookups, outcomes, at + 1),
            AlignmentLookup::Miss { fallback: AlignmentFallback::Error } => Seq::empty(),
            _ => if outcomes.len() == 0 {
                Seq::empty()
            } else {
                let rest = outcomes.subrange(1, outcomes.len() as int);
                match outcomes[0] {
                    Ok(words) => if runs[at].bounds_source == BoundsSource::Wholeclip {
                        words
                    } else {
                        words + words_of_runs(runs, lookups, rest, at + 1)
                    },
                    Err(failure) => if recoverable(failure) {
                        words_of_runs(runs, lookups, rest, at + 1)
                    } else {
                        Seq::empty()
                    },
                }
            },
        }
    }
}

/// The words of a job are those of its runs, joined in the order of the runs.
pub proof fn words_are_joined_in_run_order(d: RunDispatchView, outcomes: Seq<RunOutcome>)
    requires
        d.inv(),
        !d.awaiting,
        !d.stopped,
        d.failure is None,
    ensures
        d.driven(outcomes).words == d.words + words_of_runs(
            d.runs,
            d.lookups,
            outcomes,
            d.next,
        ),
    decreases outcomes.len(),
{
    lemma_advancing_joins(d, outcomes);
    advancing_keeps_the_words(d);
    let at = d.advanced();
    if at.awaiting && outcomes.len() > 0 {
        let e = at.after_outcome(outcomes[0]);
        let rest = outcomes.subrange(1, outcomes.len() as int);
        if !e.ended() {
            words_are_joined_in_run_order(e, rest);
        } else {
            assert(e.driven(rest) == e);
        }
        let tail = words_of_runs(d.runs, d.lookups, rest, at.next + 1);
        assert(d.driven(outcomes) == e.driven(rest));
        assert(words_of_runs(d.runs, d.lookups, outcomes, at.next) == match outcomes[0] {
            Ok(words) => if d.runs[at.next].bounds_source == BoundsSource::Wholeclip {
                words
            } else {
                words + tail
            },
            Err(failure) => if recoverable(failure) {
                tail
            } else {
                Seq::empty()
            },
        });
        assert(d.driven(outcomes).words =~= at.words + words_of_runs(
            d.runs,
            d.lookups,
            outcomes,
            at.next,
        ));
    } else {
        assert(d.driven(outcomes).words =~= at.words + words_of_runs(
            d.runs,
            d.lookups,
            outcomes,
            at.next,
        ));
    }
}

proof fn lemma_advancing_joins(d: RunDispatchView, outcomes: Seq<RunOutcome>)
    requires
        d.inv(),
        !d.awaiting,
        !d.stopped,
        d.failure is None,
    ensures
        d.advanced().words + words_of_runs(d.runs, d.lookups, outcomes, d.advanced().next)
            == d.words + words_of_runs(d.runs, d.lookups, outcomes, d.next),
        !d.advanced().stopped,
        d.advanced().failure is Some ==> d.advanced().next < d.runs.len()
            && d.lookups[d.advanced().next] == (AlignmentLookup::Miss {
            fallback: AlignmentFallback::Error,
        }),
    decreases d.runs.len() - d.next,
{
    if !d.ended() && d.lookups[d.next] == (AlignmentLookup::Miss {
        fallback: AlignmentFallback::SkipChunk,
    }) {
        lemma_advancing_joins(d.stepped(), outcomes);
        assert(d.stepped().words + words_of_runs(d.runs, d.lookups, outcomes, d.next + 1)
            =~= d.words + words_of_runs(d.runs, d.lookups, outcomes, d.next));
    }
}

/// Alignment is best effort: a job whose runs only succeed or fail recoverably,
/// and of which no run is refused by the registry, does not fail.
pub proof fn recoverable_failures_do_not_fail_the_job(
    d: RunDispatchView,
    outcomes: Seq<RunOutcome>,
)
    requires
        d.inv(),
        !d.awaiting,
        d.failure is None,
        forall|i: int|
            0 <= i < d.lookups.len() ==> (#[trigger] d.lookups[i]) != (AlignmentLookup::Miss {
                fallback: AlignmentFallback::Error,
            }),
        forall|i: int|
            0 <= i < outcomes.len() ==> ((#[trigger] outcomes[i]) matches Err(failure)
                ==> recoverable(failure)),
    ensures
        d.driven(outcomes).failure is None,
    decreases outcomes.len(),
{
    advancing_keeps_the_words(d);
    lemma_advancing_without_refusal(d);
    let at = d.advanced();
    if at.awaiting && outcomes.len() > 0 {
        let rest = outcomes.subrange(1, outcomes.len() as int);
        assert(outcomes[0] matches Err(failure) ==> recoverable(failure));
        assert forall|i: int| 0 <= i < rest.len() implies ((
        #[trigger] rest[i]) matches Err(failure) ==> recoverable(failure)) by {
            assert(rest[i] == outcomes[i + 1]);
        }
        recoverable_failures_do_not_fail_the_job(at.after_outcome(outcomes[0]), rest);
    }
}

proof fn lemma_advancing_without_refusal(d: RunDispatchView)
    requires
        d.inv(),
        !d.awaiting,
        d.failure is None,
        forall|i: int|
            0 <= i < d.lookups.len() ==> (#[trigger] d.lookups[i]) != (AlignmentLookup::Miss {
                fallback: AlignmentFallback::Error,
            }),
    ensures
        d.advanced().failure is None,
    decreases d.runs.len() - d.next,
{
    if !d.ended() {
        assert(d.lookups[d.next] != (AlignmentLookup::Miss { fallback: AlignmentFallback::Error }));
        if d.lookups[d.next] == (AlignmentLookup::Miss {
            fallback: AlignmentFallback::SkipChunk,
        }) {
            lemma_advancing_without_refusal(d.stepped());
        }
    }
}

/// A failure that is not recoverable ends the job as it is: no other run comes
/// up, and it is the result.
pub proof fn other_failures_end_the_job(
    d: RunDispatchView,
    failure: WorkFailure,
    rest: Seq<RunOutcome>,
)
    requires
        d.inv(),
        d.awaiting,
        !recoverable(failure),
    ensures
        d.after_outcome(RunOutcome::Err(failure)).driven(rest).failure == Some(failure),
        d.after_outcome(RunOutcome::Err(failure)).driven(rest).counters == d.counters,
{
}

/// A job that ended without failure and without a run that took the whole
/// chunk has seen every run exactly once.
pub proof fn every_run_is_counted_once(d: RunDispatchView)
    requires
        d.inv(),
        !d.awaiting,
        d.ended(),
        !d.stopped,
        d.failure is None,
    ensures
        d.counters.total == d.runs.len(),
        d.counters.dtw + d.counters.segment + d.counters.wholeclip == d.runs.len(),
{
}

} // verus!
