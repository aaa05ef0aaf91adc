//! Which frames of the acoustic model are speech.

use vstd::prelude::*;

use crate::time;
use crate::time::TimeRange;

verus! {

/// Number of samples of the segment `[start, end)` in frame `f`, which covers
/// the samples `[f * hop, (f + 1) * hop)`. Positions before zero count for
/// nothing.
pub open spec fn overlap(segment: TimeRange, f: int, hop: int) -> int {
    let start = if segment.start < 0 {
        0
    } else {
        segment.start as int
    };
    let lo = if start < f * hop {
        f * hop
    } else {
        start
    };
    let hi = if segment.end < (f + 1) * hop {
        segment.end as int
    } else {
        (f + 1) * hop
    };
    if lo < hi {
        hi - lo
    } else {
        0
    }
}

/// Number of samples of all segments together in frame `f`.
pub open spec fn total_overlap(segments: Seq<TimeRange>, f: int, hop: int) -> int
    decreases segments.len(),
{
    if segments.len() == 0 {
        0
    } else {
        total_overlap(segments.drop_last(), f, hop) + overlap(segments.last(), f, hop)
    }
}

/// Number of samples of speech that make a frame of `hop` samples speech: half
/// of them, rounded up, and at least one.
pub open spec fn speech_threshold(hop: int) -> int {
    if hop <= 1 {
        1
    } else {
        (hop + 1) / 2
    }
}

/// Frame `f` of `hop` samples is speech.
pub open spec fn speech_frame(segments: Seq<TimeRange>, f: int, hop: int) -> bool {
    hop > 0 && total_overlap(segments, f, hop) >= speech_threshold(hop)
}

proof fn lemma_outside_frames(segment: TimeRange, f: int, hop: int)
    requires
        hop > 0,
        0 <= segment.start < segment.end || segment.start < 0 < segment.end,
        f >= 0,
        ({
            let start = if segment.start < 0 {
                0
            } else {
                segment.start as int
            };
            f < start / hop || (segment.end + hop - 1) / hop <= f
        }),
    ensures
        overlap(segment, f, hop) == 0,
{
    let start: int = if segment.start < 0 {
        0
    } else {
        segment.start as int
    };
    let end = segment.end as int;
    vstd::arithmetic::div_mod::lemma_fundamental_div_mod(start, hop);
    vstd::arithmetic::div_mod::lemma_mod_bound(start, hop);
    vstd::arithmetic::div_mod::lemma_fundamental_div_mod(end + hop - 1, hop);
    vstd::arithmetic::div_mod::lemma_mod_bound(end + hop - 1, hop);
    let q = start / hop;
    let r = (end + hop - 1) / hop;
    if f < q {
        assert((f + 1) * hop <= hop * q) by (nonlinear_arith)
            requires
                f + 1 <= q,
                hop > 0,
        ;
        assert((f + 1) * hop == f * hop + hop) by (nonlinear_arith);
    } else {
        assert(hop * r <= f * hop) by (nonlinear_arith)
            requires
                r <= f,
                hop > 0,
        ;
    }
}

proof fn lemma_inside_frame(f: int, hop: int, end: int)
    requires
        hop > 0,
        0 <= f < (end + hop - 1) / hop,
        end > 0,
    ensures
        0 <= f * hop < end,
        (f + 1) * hop == f * hop + hop,
{
    let r = (end + hop - 1) / hop;
    vstd::arithmetic::div_mod::lemma_fundamental_div_mod(end + hop - 1, hop);
    vstd::arithmetic::div_mod::lemma_mod_bound(end + hop - 1, hop);
    assert((f + 1) * hop == f * hop + hop) by (nonlinear_arith);
    assert((f + 1) * hop <= hop * r) by (nonlinear_arith)
        requires
            f + 1 <= r,
            hop > 0,
    ;
    assert(0 <= f * hop) by (nonlinear_arith)
        requires
            f >= 0,
            hop > 0,
    ;
}

/// The sum of what a segment adds to each frame.
spec fn sums(segments: Seq<TimeRange>, hop: int, overlaps: Seq<i64>) -> bool {
    forall|f: int|
        0 <= f < overlaps.len() ==> (#[trigger] overlaps[f]) == time::saturate(
            total_overlap(segments, f, hop),
        )
}

proof fn lemma_total_nonnegative(segments: Seq<TimeRange>, f: int, hop: int)
    ensures
        total_overlap(segments, f, hop) >= 0,
    decreases segments.len(),
{
    if segments.len() > 0 {
        lemma_total_nonnegative(segments.drop_last(), f, hop);
    }
}

/// Add what one segment covers of each frame.
fn add_segment(
    overlaps: &mut Vec<i64>,
    hop: i64,
    segment: TimeRange,
    Ghost(before): Ghost<Seq<TimeRange>>,
)
    requires
        0 < hop <= u32::MAX,
        segment.end + hop <= i64::MAX,
        sums(before, hop as int, old(overlaps)@),
    ensures
        final(overlaps)@.len() == old(overlaps)@.len(),
        sums(before.push(segment), hop as int, final(overlaps)@),
{
    let ghost with = before.push(segment);
    let n_frames: usize = overlaps.len();
    proof {
        assert(with.drop_last() =~= before);
    }
    let start: i64 = if segment.start < 0 {
        0
    } else {
        segment.start
    };
    let end: i64 = if segment.end < 0 {
        0
    } else {
        segment.end
    };
    if end <= start {
        return;
    }
    let first: i64 = start / hop;
    let last: i64 = (end + hop - 1) / hop;
    if first as u64 >= n_frames as u64 {
        proof {
            assert forall|f: int| 0 <= f < overlaps@.len() implies overlap(segment, f, hop as int)
                == 0 by {
                lemma_outside_frames(segment, f, hop as int);
            }
        }
        return;
    }
    let upper: usize = if (last as u64) < n_frames as u64 {
        last as usize
    } else {
        n_frames
    };
    let mut f: usize = first as usize;
    while f < upper
        invariant
            first <= f,
            upper <= n_frames == overlaps@.len() == old(overlaps)@.len(),
            f <= upper || upper <= first,
            upper <= last,
            0 < hop <= u32::MAX,
            0 <= start < end <= i64::MAX - hop,
            start == if segment.start < 0 {
                0
            } else {
                segment.start
            },
            end == segment.end,
            first == start as int / hop as int,
            last == (end + hop - 1) / hop as int,
            sums(before, hop as int, old(overlaps)@),
            with == before.push(segment),
            with.drop_last() == before,
            forall|g: int| first <= g < f ==> (#[trigger] overlaps@[g]) == time::saturate(
                total_overlap(with, g, hop as int),
            ),
            forall|g: int|
                0 <= g < n_frames && !(first <= g < f) ==> (#[trigger] overlaps@[g]) == old(
                    overlaps,
                )@[g],
        decreases upper - f,
    {
        proof {
            lemma_inside_frame(f as int, hop as int, end as int);
            lemma_total_nonnegative(before, f as int, hop as int);
        }
        let frame_lo: i64 = f as i64 * hop;
        let frame_hi: i64 = frame_lo + hop;
        let lo: i64 = if start < frame_lo {
            frame_lo
        } else {
            start
        };
        let hi: i64 = if end < frame_hi {
            end
        } else {
            frame_hi
        };
        if hi > lo {
            let covered: i64 = hi - lo;
            let sum: i64 = if overlaps[f] > i64::MAX - covered {
                i64::MAX
            } else {
                overlaps[f] + covered
            };
            overlaps.set(f, sum);
        }
        f += 1;
    }
    proof {
        assert forall|g: int| 0 <= g < overlaps@.len() implies (#[trigger] overlaps@[g])
            == time::saturate(total_overlap(with, g, hop as int)) by {
            if !(first <= g < f) {
                lemma_outside_frames(segment, g, hop as int);
            }
        }
    }
}

/// Mark, for each of `n_frames` frames of `hop_samples` samples, whether it is
/// speech: whether the segments, which are ranges of the same samples, cover at
/// least half of it. Segments add up. With frames of no samples nothing is
/// speech.
pub fn build_speech_frames(n_frames: usize, hop_samples: u32, sub_segments: &[TimeRange]) -> (mask:
    Vec<bool>)
    requires
        forall|i: int|
            0 <= i < sub_segments@.len() ==> (#[trigger] sub_segments@[i]).end + hop_samples
                <= i64::MAX,
    ensures
        mask@.len() == n_frames,
        forall|f: int|
            0 <= f < n_frames ==> (#[trigger] mask@[f]) == speech_frame(
                sub_segments@,
                f,
                hop_samples as int,
            ),
{
    let hop: i64 = hop_samples as i64;
    let threshold: i64 = if hop <= 1 {
        1
    } else {
        (hop + 1) / 2
    };
    let mut overlaps: Vec<i64> = vec![0i64; n_frames];
    assert(sums(sub_segments@.take(0), hop as int, overlaps@));
    if hop > 0 {
        let mut i: usize = 0;
        while i < sub_segments.len()
            invariant
                i <= sub_segments@.len(),
                0 < hop <= u32::MAX,
                hop == hop_samples,
                overlaps@.len() == n_frames,
                forall|j: int|
                    0 <= j < sub_segments@.len() ==> (#[trigger] sub_segments@[j]).end
                        + hop_samples <= i64::MAX,
                sums(sub_segments@.take(i as int), hop as int, overlaps@),
            decreases sub_segments@.len() - i,
        {
            assert(sub_segments@.take(i as int).push(sub_segments@[i as int])
                =~= sub_segments@.take(i + 1));
            add_segment(
                &mut overlaps,
                hop,
                sub_segments[i],
                Ghost(sub_segments@.take(i as int)),
            );
            i += 1;
        }
        assert(sub_segments@.take(i as int) =~= sub_segments@);
    }
    let mut mask: Vec<bool> = Vec::new();
    let mut f: usize = 0;
    while f < n_frames
        invariant
            f <= n_frames == overlaps@.len(),
            mask@.len() == f,
            hop == hop_samples,
            threshold == speech_threshold(hop as int),
            hop > 0 ==> sums(sub_segments@, hop as int, overlaps@),
            forall|g: int|
                0 <= g < f ==> (#[trigger] mask@[g]) == (hop_samples > 0 && total_overlap(
                    sub_segments@,
                    g,
                    hop_samples as int,
                ) >= speech_threshold(hop_samples as int)),
        decreases n_frames - f,
    {
        proof {
            lemma_total_nonnegative(sub_segments@, f as int, hop as int);
        }
        mask.push(hop > 0 && overlaps[f] >= threshold);
        f += 1;
    }
    mask
}

/// Number of segments that hold the sample.
pub open spec fn holders(segments: Seq<TimeRange>, sample: int) -> int
    decreases segments.len(),
{
    if segments.len() == 0 {
        0
    } else {
        holders(segments.drop_last(), sample) + if segments.last().start <= sample
            < segments.last().end {
            1int
        } else {
            0
        }
    }
}

/// Number of samples of speech among the `n` samples from `first` on; one that
/// several segments hold counts for each of them.
pub open spec fn speech_samples(segments: Seq<TimeRange>, first: int, n: int) -> int
    decreases n,
{
    if n <= 0 {
        0
    } else {
        speech_samples(segments, first, n - 1) + holders(segments, first + n - 1)
    }
}

/// A frame is speech exactly if at least half of its samples are, counted one
/// by one.
pub proof fn a_frame_is_speech_if_half_of_it_is(segments: Seq<TimeRange>, f: int, hop: int)
    requires
        hop > 0,
        f >= 0,
    ensures
        speech_frame(segments, f, hop) <==> 2 * speech_samples(segments, f * hop, hop) >= hop,
{
    assert(f * hop >= 0) by (nonlinear_arith)
        requires
            f >= 0,
            hop > 0,
    ;
    assert((f + 1) * hop == f * hop + hop) by (nonlinear_arith);
    lemma_total_is_counted(segments, f, hop);
}

/// Frames of no samples are never speech.
pub proof fn frames_of_no_samples_are_silent(segments: Seq<TimeRange>, f: int)
    ensures
        !speech_frame(segments, f, 0),
{
}

proof fn lemma_total_is_counted(segments: Seq<TimeRange>, f: int, hop: int)
    requires
        hop > 0,
        f * hop >= 0,
        (f + 1) * hop == f * hop + hop,
    ensures
        total_overlap(segments, f, hop) == speech_samples(segments, f * hop, hop),
    decreases segments.len(),
{
    if segments.len() == 0 {
        lemma_no_speech(f * hop, hop);
        assert(segments =~= Seq::empty());
    } else {
        lemma_total_is_counted(segments.drop_last(), f, hop);
        lemma_one_more_segment(segments, f * hop, hop);
    }
}

proof fn lemma_no_speech(first: int, n: int)
    ensures
        speech_samples(Seq::empty(), first, n) == 0,
    decreases n,
{
    if n > 0 {
        lemma_no_speech(first, n - 1);
    }
}

proof fn lemma_one_more_segment(segments: Seq<TimeRange>, first: int, n: int)
    requires
        segments.len() > 0,
        first >= 0,
        n >= 0,
    ensures
        speech_samples(segments, first, n) == speech_samples(segments.drop_last(), first, n) + ({
            let lo = if segments.last().start < first {
                first
            } else {
                segments.last().start as int
            };
            let hi = if segments.last().end < first + n {
                segments.last().end as int
            } else {
                first + n
            };
            if lo < hi {
                hi - lo
            } else {
                0
            }
        }),
    decreases n,
{
    if n > 0 {
        lemma_one_more_segment(segments, first, n - 1);
    }
}

/// Where no segment reaches into a frame, it is not speech.
pub proof fn frames_without_segments_are_silent(segments: Seq<TimeRange>, f: int, hop: int)
    requires
        hop > 0,
        forall|i: int|
            0 <= i < segments.len() ==> (#[trigger] segments[i]).end <= f * hop || (f + 1) * hop
                <= segments[i].start,
    ensures
        total_overlap(segments, f, hop) == 0,
        total_overlap(segments, f, hop) < speech_threshold(hop),
    decreases segments.len(),
{
    if segments.len() > 0 {
        let n = segments.len() - 1;
        assert(segments.last() == segments[n]);
        assert forall|i: int| 0 <= i < n implies (#[trigger] segments.drop_last()[i]).end <= f * hop
            || (f + 1) * hop <= segments.drop_last()[i].start by {
            assert(segments.drop_last()[i] == segments[i]);
        }
        frames_without_segments_are_silent(segments.drop_last(), f, hop);
        assert((f + 1) * hop == f * hop + hop) by (nonlinear_arith);
    }
    assert(speech_threshold(hop) >= 1);
}

} // verus!
