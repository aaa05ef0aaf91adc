//! Bounded buffer of live audio, addressed by stream position.
//!
//! The first packet fixes the output timebase and the timestamp of the
//! stream's first sample. From then on a position in the stream is a count of
//! analysis samples, and its timestamp is computed from that count alone:
//! neither appending nor trimming can make timestamps drift. Whether a packet
//! continues the stream is decided in output timestamps, so that a caller who
//! follows [`SampleBuffer::next_expected_starts_at`] is never refused on
//! account of rounding.

use vstd::prelude::*;

use crate::binary32::Binary32;
use crate::machine::cut::SampleRange;
use crate::time;
use crate::time::{TimeRange, Timebase, Timestamp};
use crate::types::{PushKind, TranscriberError};

verus! {

/// Live audio.
pub struct SampleBuffer {
    /// Timebase of the first packet.
    output_tb: Option<Timebase>,
    /// Timestamp of the stream's first sample; fixed by the first packet.
    base_pts_out_anchor: i64,
    /// Samples appended since the start of the stream.
    absolute_sample_offset: u64,
    /// Samples dropped from the front since the start of the stream.
    buffer_drop_offset: u64,
    /// The samples in between.
    samples: Vec<Binary32>,
    /// Number of live samples above which an append reports backpressure.
    cap: usize,
    /// Longest gap that is filled with silence, in analysis samples.
    gap_tolerance_samples: u64,
}

/// What a [`SampleBuffer`] holds.
#[verifier::ext_equal]
pub struct SampleBufferView {
    /// Timebase of the first packet.
    pub output_tb: Option<Timebase>,
    /// Timestamp of the stream's first sample.
    pub anchor: int,
    /// Samples appended since the start of the stream.
    pub appended: int,
    /// The live samples: those of the appended ones that were not dropped.
    pub samples: Seq<Binary32>,
    /// Number of live samples above which an append reports backpressure.
    pub cap: int,
    /// Longest gap that is filled with silence.
    pub gap_tolerance: int,
}

/// `n` silent samples.
pub open spec fn silence(n: int) -> Seq<Binary32> {
    Seq::new(n as nat, |i: int| Binary32 { bits: 0 })
}

impl SampleBufferView {
    /// Samples dropped from the front since the start of the stream.
    pub open spec fn dropped(self) -> int {
        self.appended - self.samples.len()
    }

    /// Timestamp of the sample at a stream position, once a packet came.
    pub open spec fn pts_of(self, position: int) -> int {
        self.anchor + time::rescaled(position, time::analysis_timebase(), self.output_tb->0)
    }

    /// Timestamp at which the next contiguous packet starts.
    pub open spec fn expected_pts(self) -> int {
        self.pts_of(self.appended)
    }

    /// The timestamp of a stream position fits in an `i64`.
    pub open spec fn pts_fits(self, position: int) -> bool {
        i64::MIN <= self.pts_of(position) <= i64::MAX
    }

    /// The range lies in the live samples.
    pub open spec fn live(self, range: SampleRange) -> bool {
        self.dropped() <= range.start <= range.end <= self.appended
    }

    /// The live samples of a range.
    pub open spec fn slice(self, range: SampleRange) -> Seq<Binary32> {
        self.samples.subrange(range.start - self.dropped(), range.end - self.dropped())
    }

    /// A range of stream positions as a range of output timestamps.
    pub open spec fn output_range(self, range: SampleRange) -> TimeRange {
        TimeRange {
            start: self.pts_of(range.start as int) as i64,
            end: self.pts_of(range.end as int) as i64,
            timebase: self.output_tb->0,
        }
    }

    /// Before the first packet: anchor the stream at the packet's timestamp.
    pub open spec fn anchored(self, starts_at: Timestamp) -> SampleBufferView {
        if self.output_tb is Some {
            self
        } else {
            SampleBufferView {
                output_tb: Some(starts_at.timebase),
                anchor: starts_at.pts as int,
                ..self
            }
        }
    }

    /// The packet is in the stream's timebase, which the first packet fixes.
    pub open spec fn accepts_timebase(self, timebase: Timebase) -> bool {
        self.output_tb matches Some(tb) ==> timebase.same_ratio(tb)
    }

    /// How far a packet starts past the next contiguous one, in output ticks.
    pub open spec fn advance(self, starts_at: Timestamp) -> int {
        starts_at.pts - self.anchored(starts_at).expected_pts()
    }

    /// The same distance in analysis samples.
    pub open spec fn gap(self, starts_at: Timestamp) -> int {
        time::rescaled(
            self.advance(starts_at),
            self.anchored(starts_at).output_tb->0,
            time::analysis_timebase(),
        )
    }

    /// The packet's samples are taken up: it is in the stream's timebase, does
    /// not start too early and does not leave too long a gap.
    pub open spec fn takes_up(self, starts_at: Timestamp) -> bool {
        &&& self.accepts_timebase(starts_at.timebase)
        &&& self.advance(starts_at) >= 0
        &&& self.gap(starts_at) <= self.gap_tolerance
    }

    /// The buffer after a packet came.
    pub open spec fn after_append(
        self,
        starts_at: Timestamp,
        packet: Seq<Binary32>,
    ) -> SampleBufferView {
        if self.takes_up(starts_at) {
            SampleBufferView {
                appended: self.appended + self.gap(starts_at) + packet.len(),
                samples: self.samples + silence(self.gap(starts_at)) + packet,
                ..self.anchored(starts_at)
            }
        } else {
            self
        }
    }

    /// The answer to a packet.
    pub open spec fn append_result(
        self,
        starts_at: Timestamp,
        packet: Seq<Binary32>,
    ) -> Result<(), TranscriberError> {
        if !self.accepts_timebase(starts_at.timebase) {
            Err(
                TranscriberError::InconsistentTimebase {
                    expected: self.output_tb->0,
                    got: starts_at.timebase,
                },
            )
        } else if self.advance(starts_at) < 0 {
            Err(
                TranscriberError::PtsRegression {
                    kind: PushKind::Samples,
                    advance: self.advance(starts_at) as i64,
                },
            )
        } else if self.gap(starts_at) > self.gap_tolerance {
            Err(
                TranscriberError::GapExceedsTolerance {
                    gap_samples: self.gap(starts_at) as u64,
                    tolerance_samples: self.gap_tolerance as u64,
                },
            )
        } else if self.after_append(starts_at, packet).samples.len() > self.cap {
            Err(
                TranscriberError::Backpressure {
                    buffered: self.after_append(starts_at, packet).samples.len() as usize,
                    cap: self.cap as usize,
                },
            )
        } else {
            Ok(())
        }
    }

    /// The first packet's timebase is usable, and no timestamp or sample count
    /// that the append computes leaves the machine's range.
    pub open spec fn append_in_range(self, starts_at: Timestamp, packet: Seq<Binary32>) -> bool {
        &&& starts_at.timebase.wf()
        &&& self.output_tb is None ==> starts_at.timebase.num > 0
        &&& self.accepts_timebase(starts_at.timebase) ==> {
            &&& self.anchored(starts_at).pts_fits(self.appended)
            &&& i64::MIN <= self.advance(starts_at) <= i64::MAX
            &&& self.after_append(starts_at, packet).appended <= i64::MAX
        }
    }

    /// Where the next contiguous packet starts, once a packet came.
    pub open spec fn next_expected(self) -> Option<Timestamp> {
        match self.output_tb {
            None => None,
            Some(tb) => Some(Timestamp { pts: self.expected_pts() as i64, timebase: tb }),
        }
    }

    /// The buffer after everything before `low` was dropped.
    pub open spec fn after_trim(self, low: int) -> SampleBufferView {
        if low <= self.dropped() {
            self
        } else {
            SampleBufferView {
                samples: self.samples.subrange(low - self.dropped(), self.samples.len() as int),
                ..self
            }
        }
    }
}

impl View for SampleBuffer {
    type V = SampleBufferView;

    closed spec fn view(&self) -> SampleBufferView {
        SampleBufferView {
            output_tb: self.output_tb,
            anchor: self.base_pts_out_anchor as int,
            appended: self.absolute_sample_offset as int,
            samples: self.samples@,
            cap: self.cap as int,
            gap_tolerance: self.gap_tolerance_samples as int,
        }
    }
}

impl SampleBuffer {
    /// The counters agree with the live samples, and the stream is empty until
    /// a usable timebase is known.
    pub closed spec fn wf(self) -> bool {
        &&& self.buffer_drop_offset + self.samples@.len() == self.absolute_sample_offset
        &&& self.absolute_sample_offset <= i64::MAX
        &&& match self.output_tb {
            Some(tb) => tb.wf() && tb.num > 0,
            None => self.absolute_sample_offset == 0,
        }
    }

    /// The number of appended samples fits in an `i64` and is no less than the
    /// number of live ones; a known timebase is usable.
    pub proof fn lemma_appended_fits(self)
        requires
            self.wf(),
        ensures
            0 <= self@.samples.len() <= self@.appended <= i64::MAX,
            self@.gap_tolerance >= 0,
            self@.output_tb matches Some(tb) ==> tb.wf() && tb.num > 0,
            self@.output_tb is None ==> self@.appended == 0,
    {
    }

    /// Where the timestamps of a range's ends fit in an `i64`, so do those of a
    /// range inside it.
    pub proof fn lemma_pts_between(self, outer: SampleRange, inner: SampleRange)
        requires
            self.wf(),
            self@.output_tb is Some,
            outer.start <= inner.start <= inner.end <= outer.end,
            self@.pts_fits(outer.start as int),
            self@.pts_fits(outer.end as int),
        ensures
            self@.pts_fits(inner.start as int),
            self@.pts_fits(inner.end as int),
    {
        let analysis = time::analysis_timebase();
        let tb = self@.output_tb->0;
        time::rescaling_is_monotone(outer.start as int, inner.start as int, analysis, tb);
        time::rescaling_is_monotone(inner.start as int, inner.end as int, analysis, tb);
        time::rescaling_is_monotone(inner.end as int, outer.end as int, analysis, tb);
    }

    /// An empty buffer.
    pub fn new(cap: usize, gap_tolerance_samples: u64) -> (buffer: SampleBuffer)
        ensures
            buffer.wf(),
            buffer@ == (SampleBufferView {
                output_tb: None,
                anchor: 0,
                appended: 0,
                samples: Seq::empty(),
                cap: cap as int,
                gap_tolerance: gap_tolerance_samples as int,
            }),
    {
        SampleBuffer {
            output_tb: None,
            base_pts_out_anchor: 0,
            absolute_sample_offset: 0,
            buffer_drop_offset: 0,
            samples: Vec::new(),
            cap,
            gap_tolerance_samples,
        }
    }

    /// Timebase of the first packet; `None` until it came.
    pub fn output_timebase(&self) -> (tb: Option<Timebase>)
        ensures
            tb == self@.output_tb,
    {
        self.output_tb
    }

    /// Append a packet whose first sample has the timestamp `starts_at`.
    ///
    /// A packet that starts late by no more than the gap tolerance is preceded
    /// by silence. When the buffer ends up over its cap the packet was still
    /// taken up, and the caller is told to wait.
    pub fn append(&mut self, starts_at: Timestamp, packet: &[Binary32]) -> (result: Result<
        (),
        TranscriberError,
    >)
        requires
            old(self).wf(),
            old(self)@.append_in_range(starts_at, packet@),
        ensures
            final(self).wf(),
            final(self)@ == old(self)@.after_append(starts_at, packet@),
            result == old(self)@.append_result(starts_at, packet@),
    {
        let output_tb: Timebase = match self.output_tb {
            Some(expected_tb) => {
                if !(starts_at.timebase == expected_tb) {
                    return Err(
                        TranscriberError::InconsistentTimebase {
                            expected: expected_tb,
                            got: starts_at.timebase,
                        },
                    );
                }
                expected_tb
            },
            None => {
                self.output_tb = Some(starts_at.timebase);
                self.base_pts_out_anchor = starts_at.pts;
                starts_at.timebase
            },
        };
        proof {
            time::rescaling_keeps_zero(time::analysis_timebase(), output_tb);
            time::rescaling_keeps_zero(output_tb, time::analysis_timebase());
            if 0 <= old(self)@.advance(starts_at) {
                time::rescaling_is_monotone(
                    0,
                    old(self)@.advance(starts_at),
                    output_tb,
                    time::analysis_timebase(),
                );
            }
        }
        let expected_pts_out: i64 = self.base_pts_out_anchor + time::rescale_pts(
            self.absolute_sample_offset as i64,
            time::analysis_timebase(),
            output_tb,
        );
        let delta_pts_out: i64 = starts_at.pts - expected_pts_out;
        if delta_pts_out < 0 {
            return Err(
                TranscriberError::PtsRegression { kind: PushKind::Samples, advance: delta_pts_out },
            );
        }
        let gap: i64 = time::rescale_pts(delta_pts_out, output_tb, time::analysis_timebase());
        let delta_samples: u64 = gap as u64;
        if delta_samples > self.gap_tolerance_samples {
            return Err(
                TranscriberError::GapExceedsTolerance {
                    gap_samples: delta_samples,
                    tolerance_samples: self.gap_tolerance_samples,
                },
            );
        }
        self.append_silence(delta_samples);
        self.samples.extend_from_slice(packet);
        self.absolute_sample_offset += packet.len() as u64;
        if self.samples.len() > self.cap {
            return Err(
                TranscriberError::Backpressure { buffered: self.samples.len(), cap: self.cap },
            );
        }
        Ok(())
    }

    /// Samples appended since the start of the stream.
    pub fn absolute_sample_offset(&self) -> (appended: u64)
        ensures
            appended == self@.appended,
    {
        self.absolute_sample_offset
    }

    /// Number of live samples.
    pub fn buffered_samples(&self) -> (buffered: usize)
        ensures
            buffered == self@.samples.len(),
    {
        self.samples.len()
    }

    /// Timestamp at which the next contiguous packet starts; `None` until the
    /// first packet came.
    pub fn next_expected_starts_at(&self) -> (next: Option<Timestamp>)
        requires
            self.wf(),
            self@.output_tb is Some ==> self@.pts_fits(self@.appended),
        ensures
            next == self@.next_expected(),
    {
        match self.output_tb {
            None => None,
            Some(tb) => {
                let pts: i64 = self.base_pts_out_anchor + time::rescale_pts(
                    self.absolute_sample_offset as i64,
                    time::analysis_timebase(),
                    tb,
                );
                Some(Timestamp::new(pts, tb))
            },
        }
    }

    /// A copy of the live samples of a range.
    pub fn extract(&self, range: SampleRange) -> (samples: Vec<Binary32>)
        requires
            self.wf(),
            self@.live(range),
        ensures
            samples@ == self@.slice(range),
    {
        assert(self.samples@.len() == self.samples.len());
        let from: usize = (range.start - self.buffer_drop_offset) as usize;
        let to: usize = (range.end - self.buffer_drop_offset) as usize;
        vstd::slice::slice_to_vec(vstd::slice::slice_subrange(self.samples.as_slice(), from, to))
    }

    /// A range of stream positions as a range of output timestamps.
    pub fn samples_to_output_range(&self, range: SampleRange) -> (output: TimeRange)
        requires
            self.wf(),
            range.wf(),
            range.end <= i64::MAX,
            self@.output_tb is Some,
            self@.pts_fits(range.start as int),
            self@.pts_fits(range.end as int),
        ensures
            output == self@.output_range(range),
            output.wf(),
    {
        let tb: Timebase = self.output_tb.unwrap();
        let analysis: Timebase = time::analysis_timebase();
        proof {
            time::rescaling_is_monotone(range.start as int, range.end as int, analysis, tb);
        }
        let start: i64 = self.base_pts_out_anchor + time::rescale_pts(
            range.start as i64,
            analysis,
            tb,
        );
        let end: i64 = self.base_pts_out_anchor + time::rescale_pts(range.end as i64, analysis, tb);
        TimeRange::new(start, end, tb)
    }

    /// Drop every live sample before the stream position `low`.
    pub fn trim_to(&mut self, low: u64)
        requires
            old(self).wf(),
            low <= old(self)@.appended,
        ensures
            final(self).wf(),
            final(self)@ == old(self)@.after_trim(low as int),
    {
        if low > self.buffer_drop_offset {
            assert(self.samples@.len() == self.samples.len());
            let excess: usize = (low - self.buffer_drop_offset) as usize;
            self.samples = self.samples.split_off(excess);
            self.buffer_drop_offset = low;
        }
    }

    /// Append `n` silent samples.
    fn append_silence(&mut self, n: u64)
        requires
            old(self).wf(),
            old(self)@.appended + n <= i64::MAX,
            old(self)@.output_tb is Some,
        ensures
            final(self).wf(),
            final(self)@ == (SampleBufferView {
                appended: old(self)@.appended + n,
                samples: old(self)@.samples + silence(n as int),
                ..old(self)@
            }),
    {
        let mut filled: u64 = 0;
        while filled < n
            invariant
                filled <= n,
                self.wf(),
                old(self)@.appended + n <= i64::MAX,
                old(self)@.output_tb is Some,
                self@ == (SampleBufferView {
                    appended: old(self)@.appended + filled,
                    samples: old(self)@.samples + silence(filled as int),
                    ..old(self)@
                }),
            decreases n - filled,
        {
            self.samples.push(Binary32::zero());
            self.absolute_sample_offset += 1;
            proof {
                assert(silence(filled as int).push(Binary32 { bits: 0 }) =~= silence(
                    filled + 1 as int,
                ));
            }
            filled += 1;
        }
    }
}

/// A buffer with a cap of sixty seconds and a gap tolerance of 200 ms.
pub fn default_buffer() -> (buffer: SampleBuffer)
    ensures
        buffer.wf(),
        buffer@ == (SampleBufferView {
            output_tb: None,
            anchor: 0,
            appended: 0,
            samples: Seq::empty(),
            cap: 960_000,
            gap_tolerance: 3_200,
        }),
{
    SampleBuffer::new(60 * 16_000, 200 * 16)
}

/// A packet that starts where the buffer expects it is taken up whole and
/// without silence, whatever the output timebase, and only backpressure can be
/// reported.
pub proof fn contiguous_packets_are_accepted(
    v: SampleBufferView,
    starts_at: Timestamp,
    packet: Seq<Binary32>,
)
    requires
        v.output_tb matches Some(tb) && tb.wf() && tb.num > 0,
        v.pts_fits(v.appended),
        v.gap_tolerance >= 0,
        v.next_expected() == Some(starts_at),
    ensures
        v.after_append(starts_at, packet).samples == v.samples + packet,
        v.after_append(starts_at, packet).appended == v.appended + packet.len(),
        v.append_result(starts_at, packet) matches Err(e) ==> e is Backpressure,
        v.append_result(starts_at, packet) is Ok <==> v.samples.len() + packet.len() <= v.cap,
{
    let tb = v.output_tb->0;
    assert(tb.same_ratio(tb));
    time::rescaling_keeps_zero(tb, time::analysis_timebase());
    assert(v.samples + silence(0) + packet =~= v.samples + packet);
}

/// The first packet of a stream fixes its timebase and its start, whatever these
/// are, and is taken up whole; only its size can matter.
pub proof fn the_first_packet_anchors_the_stream(
    v: SampleBufferView,
    starts_at: Timestamp,
    packet: Seq<Binary32>,
)
    requires
        v.output_tb is None,
        v.appended == 0,
        v.samples.len() == 0,
        v.gap_tolerance >= 0,
        starts_at.timebase.wf(),
        starts_at.timebase.num > 0,
    ensures
        ({
            let after = v.after_append(starts_at, packet);
            &&& after.output_tb == Some(starts_at.timebase)
            &&& after.pts_of(0) == starts_at.pts
            &&& after.samples == packet
            &&& after.appended == packet.len()
            &&& after.cap == v.cap
            &&& after.gap_tolerance == v.gap_tolerance
            &&& packet.len() <= v.cap ==> v.append_result(starts_at, packet) is Ok
            &&& packet.len() > v.cap ==> (v.append_result(starts_at, packet) matches Err(
                TranscriberError::Backpressure { buffered, cap },
            ) && (packet.len() <= usize::MAX ==> buffered == packet.len()))
        }),
{
    let tb = starts_at.timebase;
    time::rescaling_keeps_zero(time::analysis_timebase(), tb);
    time::rescaling_keeps_zero(tb, time::analysis_timebase());
    assert(v.after_append(starts_at, packet).samples =~= packet);
}

/// A later packet is refused if its ticks last otherwise than the stream's, if
/// it starts before the timestamp that follows from the samples so far, or if
/// the samples missing before it are more than the tolerated ones. Any other is
/// taken up, and the answer is backpressure exactly if more samples are live
/// then than the cap.
pub proof fn packets_are_answered_by_where_they_start(
    v: SampleBufferView,
    starts_at: Timestamp,
    packet: Seq<Binary32>,
)
    requires
        v.output_tb matches Some(tb) && tb.wf() && tb.num > 0,
        starts_at.timebase.wf(),
        v.gap_tolerance >= 0,
        v.append_in_range(starts_at, packet),
    ensures
        ({
            let tb = v.output_tb->0;
            let samples = Timebase { num: 1, den: 16_000 };
            let late = starts_at.pts - (v.anchor + time::rescaled(v.appended, samples, tb));
            let missing = time::rescaled(late, tb, samples);
            let live = v.samples.len() + missing + packet.len();
            let result = v.append_result(starts_at, packet);
            let after = v.after_append(starts_at, packet);
            if starts_at.timebase.num * tb.den != tb.num * starts_at.timebase.den {
                &&& result == Err::<(), _>(
                    TranscriberError::InconsistentTimebase { expected: tb, got: starts_at.timebase },
                )
                &&& after == v
            } else if late < 0 {
                &&& result == Err::<(), _>(
                    TranscriberError::PtsRegression {
                        kind: PushKind::Samples,
                        advance: late as i64,
                    },
                )
                &&& after == v
            } else if missing > v.gap_tolerance {
                &&& result == Err::<(), _>(
                    TranscriberError::GapExceedsTolerance {
                        gap_samples: missing as u64,
                        tolerance_samples: v.gap_tolerance as u64,
                    },
                )
                &&& after == v
            } else {
                &&& live <= v.cap ==> result is Ok
                &&& live > v.cap ==> result == Err::<(), _>(
                    TranscriberError::Backpressure {
                        buffered: live as usize,
                        cap: v.cap as usize,
                    },
                )
                &&& missing >= 0
                &&& after.appended == v.appended + missing + packet.len()
                &&& after.samples.len() == live
                &&& forall|i: int|
                    0 <= i < v.samples.len() ==> #[trigger] after.samples[i] == v.samples[i]
                &&& forall|i: int|
                    v.samples.len() <= i < v.samples.len() + missing ==> (
                    #[trigger] after.samples[i]).bits == 0
                &&& forall|i: int|
                    v.samples.len() + missing <= i < live ==> #[trigger] after.samples[i]
                        == packet[i - v.samples.len() - missing]
                &&& after.output_tb == v.output_tb
                &&& after.anchor == v.anchor
                &&& after.cap == v.cap
                &&& after.gap_tolerance == v.gap_tolerance
            }
        }),
{
    let tb = v.output_tb->0;
    let samples = Timebase { num: 1, den: 16_000 };
    let late = starts_at.pts - (v.anchor + time::rescaled(v.appended, samples, tb));
    assert(time::analysis_timebase() == samples);
    assert(v.advance(starts_at) == late);
    assert(v.accepts_timebase(starts_at.timebase) <==> starts_at.timebase.num * tb.den == tb.num
        * starts_at.timebase.den);
    if late >= 0 {
        time::rescaling_keeps_zero(tb, samples);
        time::rescaling_is_monotone(0, late, tb, samples);
    }
}

/// Where a sample lasts a whole number of output ticks, its timestamp is that
/// many ticks for each sample before it, counted from the stream's first.
pub proof fn timestamps_count_the_samples_before(v: SampleBufferView, position: i64, ticks: int)
    requires
        v.output_tb matches Some(tb) && tb.wf() && tb.num > 0 && tb.den == ticks * tb.num * 16_000,
        ticks > 0,
        i64::MIN <= position * ticks <= i64::MAX,
    ensures
        v.pts_of(position as int) == v.anchor + position * ticks,
{
    let tb = v.output_tb->0;
    assert(1 * tb.den == ticks * (16_000 * tb.num)) by (nonlinear_arith)
        requires
            tb.den == ticks * tb.num * 16_000,
    ;
    time::integer_ratios_round_trip(position, ticks, time::analysis_timebase(), tb);
}

/// A range of samples is given out between the timestamps of its ends, in the
/// stream's timebase, and read out sample by sample.
pub proof fn ranges_are_read_by_stream_position(v: SampleBufferView, range: SampleRange, i: int)
    requires
        v.output_tb is Some,
        v.live(range),
        v.samples.len() <= v.appended,
        range.start <= i < range.end,
    ensures
        v.slice(range).len() == range.end - range.start,
        v.slice(range)[i - range.start] == v.samples[i - (v.appended - v.samples.len())],
        v.pts_fits(range.start as int) ==> v.output_range(range).start == v.anchor
            + time::rescaled(
            range.start as int,
            Timebase { num: 1, den: 16_000 },
            v.output_tb->0,
        ),
        v.pts_fits(range.end as int) ==> v.output_range(range).end == v.anchor + time::rescaled(
            range.end as int,
            Timebase { num: 1, den: 16_000 },
            v.output_tb->0,
        ),
        v.output_range(range).timebase == v.output_tb->0,
{
}

/// The next packet is expected where the samples so far end; nothing is expected
/// of the first.
pub proof fn packets_are_expected_behind_the_samples(v: SampleBufferView)
    requires
        v.output_tb is Some ==> v.pts_fits(v.appended),
    ensures
        v.next_expected() is None <==> v.output_tb is None,
        v.next_expected() matches Some(next) ==> next.timebase == v.output_tb->0 && next.pts
            == v.anchor + time::rescaled(
            v.appended,
            Timebase { num: 1, den: 16_000 },
            v.output_tb->0,
        ),
{
}

/// Trimming drops exactly the live samples before the given position.
pub proof fn trimming_drops_what_comes_before(v: SampleBufferView, low: int)
    requires
        v.samples.len() <= v.appended,
        low <= v.appended,
    ensures
        ({
            let after = v.after_trim(low);
            let dropped = v.appended - v.samples.len();
            &&& after.appended == v.appended
            &&& after.appended - after.samples.len() == vstd::math::max(dropped, low)
            &&& after.samples == v.samples.skip(v.samples.len() - after.samples.len())
            &&& after.output_tb == v.output_tb
            &&& after.anchor == v.anchor
            &&& after.cap == v.cap
            &&& after.gap_tolerance == v.gap_tolerance
        }),
{
    let after = v.after_trim(low);
    assert(after.samples =~= v.samples.skip(v.samples.len() - after.samples.len()));
}

/// A packet that is not taken up leaves the buffer unchanged.
pub proof fn refused_packets_change_nothing(
    v: SampleBufferView,
    starts_at: Timestamp,
    packet: Seq<Binary32>,
)
    requires
        v.append_result(starts_at, packet) matches Err(e) && e !is Backpressure,
    ensures
        v.after_append(starts_at, packet) == v,
{
}

/// Once a packet came, neither appending nor trimming changes the timestamp of
/// any stream position.
pub proof fn timestamps_do_not_drift(
    v: SampleBufferView,
    starts_at: Timestamp,
    packet: Seq<Binary32>,
    low: int,
    position: int,
)
    requires
        v.output_tb is Some,
    ensures
        v.after_append(starts_at, packet).pts_of(position) == v.pts_of(position),
        v.after_trim(low).pts_of(position) == v.pts_of(position),
        v.after_trim(low).next_expected() == v.next_expected(),
{
}

/// Trimming and then reading a range that stayed live gives the same samples
/// as reading it before.
pub proof fn trimming_keeps_later_samples(v: SampleBufferView, low: int, range: SampleRange)
    requires
        v.live(range),
        low <= range.start,
    ensures
        v.after_trim(low).live(range),
        v.after_trim(low).slice(range) == v.slice(range),
{
    if low > v.dropped() {
        assert(v.after_trim(low).slice(range) =~= v.slice(range));
    }
}

/// The last samples of the buffer are those of the packet just taken up.
pub proof fn appended_packets_read_back(
    v: SampleBufferView,
    starts_at: Timestamp,
    packet: Seq<Binary32>,
    range: SampleRange,
)
    requires
        v.takes_up(starts_at),
        v.gap(starts_at) >= 0,
        v.samples.len() <= v.appended,
        range.end == v.after_append(starts_at, packet).appended,
        range.start == range.end - packet.len(),
    ensures
        v.after_append(starts_at, packet).live(range),
        v.after_append(starts_at, packet).slice(range) == packet,
{
    assert(v.after_append(starts_at, packet).slice(range) =~= packet);
}

} // verus!
