//! Cutting speech into chunks.
//!
//! Speech segments are merged greedily: a segment joins the chunk under
//! construction unless the chunk would then span more than the chunk size, in
//! which case the chunk is emitted and the segment starts the next one. A
//! segment that is itself longer than the chunk size is first split into parts
//! that are not. Positions are analysis samples since the start of the stream.

use vstd::prelude::*;

use crate::types::VadSegment;

verus! {

/// Half-open range of analysis samples, counted from the start of the stream.
#[derive(Clone, Copy, Debug, PartialEq, Eq, Structural)]
pub struct SampleRange {
    /// First sample.
    pub start: u64,
    /// One past the last sample.
    pub end: u64,
}

impl SampleRange {
    /// A range is well formed when it does not end before it starts.
    pub open spec fn wf(self) -> bool {
        self.start <= self.end
    }

    /// Length in samples.
    pub open spec fn span(self) -> int {
        self.end - self.start
    }

    /// The range `[start, end)`.
    pub fn new(start: u64, end: u64) -> (range: SampleRange)
        requires
            start <= end,
        ensures
            range == (SampleRange { start, end }),
            range.wf(),
    {
        SampleRange { start, end }
    }

    /// Length in samples.
    pub fn len(&self) -> (len: u64)
        requires
            self.wf(),
        ensures
            len == self.span(),
    {
        self.end - self.start
    }
}

/// Where a piece of speech inside a chunk came from.
#[allow(inconsistent_fields)]
#[derive(Clone, Copy, Debug, PartialEq, Eq, Structural)]
pub enum SubOrigin {
    /// A speech segment as it was pushed.
    Vad {
        /// Number of the segment in push order.
        vad_seq: u32,
    },
    /// A part of a segment that was longer than the chunk size.
    HardSplit {
        /// Number of the segment in push order.
        vad_seq: u32,
        /// Number of this part, from zero.
        part: u8,
        /// Number of parts of the segment.
        total_parts: u8,
    },
}

/// A piece of speech inside a chunk.
#[derive(Clone, Copy, Debug, PartialEq, Eq, Structural)]
pub struct SubRange {
    /// Its position.
    pub range: SampleRange,
    /// Where it came from.
    pub origin: SubOrigin,
}

/// A chunk: a stretch of audio and the speech in it.
#[derive(Debug)]
pub struct MergedChunk {
    /// Bounds of the chunk.
    pub range: SampleRange,
    /// The speech it is made of, in order.
    pub subs: Vec<SubRange>,
}

impl Clone for MergedChunk {
    fn clone(&self) -> (copy: MergedChunk)
        ensures
            copy@ == self@,
    {
        MergedChunk {
            range: self.range,
            subs: vstd::slice::slice_to_vec(self.subs.as_slice()),
        }
    }
}

/// What a [`MergedChunk`] says.
#[verifier::ext_equal]
pub struct ChunkView {
    /// Bounds of the chunk.
    pub range: SampleRange,
    /// The speech it is made of, in order.
    pub subs: Seq<SubRange>,
}

impl View for MergedChunk {
    type V = ChunkView;

    open spec fn view(&self) -> ChunkView {
        ChunkView { range: self.range, subs: self.subs@ }
    }
}

/// The views of a list of chunks.
pub open spec fn chunk_views(chunks: Seq<MergedChunk>) -> Seq<ChunkView> {
    chunks.map_values(|chunk: MergedChunk| chunk@)
}

/// Chunks are viewed one by one.
pub proof fn chunks_are_viewed_one_by_one(chunks: Seq<MergedChunk>, i: int)
    requires
        0 <= i < chunks.len(),
    ensures
        chunk_views(chunks).len() == chunks.len(),
        chunk_views(chunks)[i].range == chunks[i].range,
        chunk_views(chunks)[i].subs == chunks[i].subs@,
{
}

/// Non-empty and in order, from `start` to `end`, with no piece longer than
/// `chunk_size`.
pub open spec fn chained(subs: Seq<SubRange>, start: int, end: int, chunk_size: int) -> bool {
    &&& subs.len() > 0
    &&& subs[0].range.start == start
    &&& subs.last().range.end == end
    &&& forall|i: int|
        0 <= i < subs.len() ==> (#[trigger] subs[i]).range.wf() && subs[i].range.span()
            <= chunk_size
    &&& forall|i: int, j: int|
        0 <= i < j < subs.len() ==> (#[trigger] subs[i]).range.end <= (
        #[trigger] subs[j]).range.start
}

impl ChunkView {
    /// The pieces fill the chunk from its start to its end, in order.
    pub open spec fn wf(self, chunk_size: int) -> bool {
        &&& self.range.wf()
        &&& chained(self.subs, self.range.start as int, self.range.end as int, chunk_size)
    }
}

/// Number of parts that a segment of `len` samples is split into.
pub open spec fn part_count(len: int, chunk_size: int) -> int {
    if len <= chunk_size {
        1
    } else {
        (len + chunk_size - 1) / chunk_size
    }
}

/// Part `i` of a segment that is longer than the chunk size: all parts but the
/// last have the length of a chunk.
pub open spec fn split_part(seg: VadSegment, chunk_size: int, vad_seq: int, i: int) -> SubRange {
    let start = seg.start + i * chunk_size;
    let end = if start + chunk_size < seg.end {
        start + chunk_size
    } else {
        seg.end as int
    };
    SubRange {
        range: SampleRange { start: start as u64, end: end as u64 },
        origin: SubOrigin::HardSplit {
            vad_seq: vad_seq as u32,
            part: i as u8,
            total_parts: part_count(seg.end - seg.start, chunk_size) as u8,
        },
    }
}

/// The pieces that a segment is merged as: itself, or its parts where it is
/// longer than the chunk size.
pub open spec fn pieces(seg: VadSegment, chunk_size: int, vad_seq: int) -> Seq<SubRange> {
    if seg.end - seg.start <= chunk_size {
        seq![
            SubRange {
                range: SampleRange { start: seg.start, end: seg.end },
                origin: SubOrigin::Vad { vad_seq: vad_seq as u32 },
            },
        ]
    } else {
        Seq::new(
            part_count(seg.end - seg.start, chunk_size) as nat,
            |i: int| split_part(seg, chunk_size, vad_seq, i),
        )
    }
}

proof fn lemma_part_count(len: int, chunk_size: int)
    requires
        0 < chunk_size < len,
    ensures
        part_count(len, chunk_size) >= 2,
        (part_count(len, chunk_size) - 1) * chunk_size < len <= part_count(len, chunk_size)
            * chunk_size,
{
    let n = part_count(len, chunk_size);
    let r = (len + chunk_size - 1) % chunk_size;
    vstd::arithmetic::div_mod::lemma_fundamental_div_mod(len + chunk_size - 1, chunk_size);
    vstd::arithmetic::div_mod::lemma_mod_bound(len + chunk_size - 1, chunk_size);
    assert(chunk_size * n == n * chunk_size) by (nonlinear_arith);
    assert((n - 1) * chunk_size == n * chunk_size - chunk_size) by (nonlinear_arith);
    assert(n >= 2) by (nonlinear_arith)
        requires
            n * chunk_size >= len,
            0 < chunk_size < len,
    ;
}

proof fn lemma_split_part(seg: VadSegment, chunk_size: int, vad_seq: int, i: int)
    requires
        0 < chunk_size < seg.end - seg.start,
        0 <= i < part_count(seg.end - seg.start, chunk_size),
    ensures
        ({
            let n = part_count(seg.end - seg.start, chunk_size);
            let part = split_part(seg, chunk_size, vad_seq, i).range;
            &&& part.start == seg.start + i * chunk_size
            &&& part.start < part.end <= seg.end
            &&& part.span() <= chunk_size
            &&& i + 1 < n ==> part.end == seg.start + (i + 1) * chunk_size
            &&& i + 1 == n ==> part.end == seg.end
        }),
{
    let len = seg.end - seg.start;
    let n = part_count(len, chunk_size);
    lemma_part_count(len, chunk_size);
    assert(0 <= i * chunk_size <= (n - 1) * chunk_size) by (nonlinear_arith)
        requires
            0 <= i <= n - 1,
            chunk_size > 0,
    ;
    assert((i + 1) * chunk_size == i * chunk_size + chunk_size) by (nonlinear_arith);
    if i + 1 < n {
        assert((i + 1) * chunk_size <= (n - 1) * chunk_size) by (nonlinear_arith)
            requires
                i + 1 <= n - 1,
                chunk_size > 0,
        ;
    }
}

proof fn lemma_ceil(len: int, chunk_size: int)
    requires
        0 < chunk_size < len,
    ensures
        part_count(len, chunk_size) == len / chunk_size + (if len % chunk_size > 0 {
            1int
        } else {
            0int
        }),
{
    let q = len / chunk_size;
    let r = len % chunk_size;
    vstd::arithmetic::div_mod::lemma_fundamental_div_mod(len, chunk_size);
    vstd::arithmetic::div_mod::lemma_mod_bound(len, chunk_size);
    assert(chunk_size * (q + 1) == chunk_size * q + chunk_size) by (nonlinear_arith);
    if r > 0 {
        vstd::arithmetic::div_mod::lemma_fundamental_div_mod_converse(
            len + chunk_size - 1,
            chunk_size,
            q + 1,
            r - 1,
        );
    } else {
        vstd::arithmetic::div_mod::lemma_fundamental_div_mod_converse(
            len + chunk_size - 1,
            chunk_size,
            q,
            chunk_size - 1,
        );
    }
}

proof fn lemma_chained_ordered(subs: Seq<SubRange>, start: int, end: int, chunk_size: int)
    requires
        chained(subs, start, end, chunk_size),
    ensures
        start <= end,
{
    assert(subs[0].range.wf());
    assert(subs.last().range.wf());
    if subs.len() > 1 {
        assert(subs[0].range.end <= subs[subs.len() - 1].range.start);
    }
}

proof fn lemma_after_sub(v: CutView, sub: SubRange)
    requires
        v.inv(),
        sub.range.wf(),
        sub.range.span() <= v.chunk_size,
        v.end <= sub.range.start,
    ensures
        v.after_sub(sub).inv(),
        v.after_sub(sub).end == sub.range.end,
        v.after_sub(sub).chunk_size == v.chunk_size,
        v.after_sub(sub).next_vad_seq == v.next_vad_seq,
{
    if !v.overflows(sub) {
        let subs = v.subs.push(sub);
        assert forall|i: int, j: int| 0 <= i < j < subs.len() implies (
        #[trigger] subs[i]).range.end <= (#[trigger] subs[j]).range.start by {
            if j == v.subs.len() {
                assert(v.subs[i].range.wf());
                if i < v.subs.len() - 1 {
                    assert(v.subs[i].range.end <= v.subs[v.subs.len() - 1].range.start);
                    assert(v.subs.last().range.wf());
                }
            }
        }
    }
}

proof fn lemma_after_subs(v: CutView, subs: Seq<SubRange>, start: int, end: int, n: int)
    requires
        v.inv(),
        chained(subs, start, end, v.chunk_size),
        v.end <= start,
        0 <= n <= subs.len(),
    ensures
        ({
            let w = v.after_subs(subs.take(n));
            &&& w.inv()
            &&& w.end == (if n == 0 {
                v.end
            } else {
                subs[n - 1].range.end
            })
            &&& w.chunk_size == v.chunk_size
            &&& w.next_vad_seq == v.next_vad_seq
            &&& n < subs.len() ==> w.end <= subs[n].range.start
        }),
    decreases n,
{
    if n > 0 {
        lemma_after_subs(v, subs, start, end, n - 1);
        assert(subs.take(n).drop_last() =~= subs.take(n - 1));
        assert(subs[n - 1].range.wf());
        lemma_after_sub(v.after_subs(subs.take(n - 1)), subs[n - 1]);
        if n < subs.len() {
            assert(subs[n - 1].range.end <= subs[n].range.start);
        }
    }
}

proof fn lemma_merge_step(v: CutView, subs: Seq<SubRange>, n: int)
    requires
        v.inv(),
        chained(subs, subs[0].range.start as int, subs.last().range.end as int, v.chunk_size),
        v.end <= subs[0].range.start,
        0 <= n < subs.len(),
    ensures
        v.after_subs(subs.take(0)) == v,
        v.emitted_by_subs(subs.take(0)) == Seq::<ChunkView>::empty(),
        v.after_subs(subs.take(n)).inv(),
        v.after_subs(subs.take(n)).end <= subs[n].range.start,
        v.after_subs(subs.take(n + 1)) == v.after_subs(subs.take(n)).after_sub(subs[n]),
        v.after_subs(subs.take(n + 1)).inv(),
        v.after_subs(subs.take(n + 1)).end == subs[n].range.end,
        v.after_subs(subs.take(n + 1)).chunk_size == v.chunk_size,
        v.emitted_by_subs(subs.take(n + 1)) == v.emitted_by_subs(subs.take(n)) + v.after_subs(
            subs.take(n),
        ).emitted_by_sub(subs[n]),
{
    let start = subs[0].range.start as int;
    let end = subs.last().range.end as int;
    lemma_after_subs(v, subs, start, end, n);
    lemma_after_subs(v, subs, start, end, n + 1);
    assert(subs.take(n + 1).drop_last() =~= subs.take(n));
}

/// The pieces of a segment partition it: they start where it starts, each
/// starts where the one before it ends, the last ends where it ends, and none
/// is longer than the chunk size.
pub proof fn pieces_partition_the_segment(seg: VadSegment, chunk_size: int, vad_seq: int)
    requires
        seg.wf(),
        chunk_size > 0,
    ensures
        ({
            let subs = pieces(seg, chunk_size, vad_seq);
            &&& subs.len() == part_count(seg.end - seg.start, chunk_size)
            &&& chained(subs, seg.start as int, seg.end as int, chunk_size)
            &&& forall|i: int, j: int|
                0 <= i && j == i + 1 && j < subs.len() ==> (#[trigger] subs[i]).range.end == (
                #[trigger] subs[j]).range.start
            &&& seg.start < seg.end ==> forall|i: int|
                0 <= i < subs.len() ==> (#[trigger] subs[i]).range.start < subs[i].range.end
        }),
{
    let subs = pieces(seg, chunk_size, vad_seq);
    let len = seg.end - seg.start;
    if len > chunk_size {
        let n = part_count(len, chunk_size);
        lemma_part_count(len, chunk_size);
        assert forall|i: int| 0 <= i < n implies {
            &&& (#[trigger] subs[i]).range.start == seg.start + i * chunk_size
            &&& subs[i].range.start < subs[i].range.end <= seg.end
            &&& subs[i].range.span() <= chunk_size
            &&& i + 1 < n ==> subs[i].range.end == subs[i + 1].range.start
            &&& i + 1 == n ==> subs[i].range.end == seg.end
        } by {
            lemma_split_part(seg, chunk_size, vad_seq, i);
            if i + 1 < n {
                lemma_split_part(seg, chunk_size, vad_seq, i + 1);
            }
        }
        assert forall|i: int, j: int| 0 <= i < j < n implies (#[trigger] subs[i]).range.end <= (
        #[trigger] subs[j]).range.start by {
            lemma_split_part(seg, chunk_size, vad_seq, i);
            lemma_split_part(seg, chunk_size, vad_seq, j);
            assert((i + 1) * chunk_size <= j * chunk_size) by (nonlinear_arith)
                requires
                    i + 1 <= j,
                    chunk_size > 0,
            ;
        }
        assert(subs[0].range.start == seg.start + 0 * chunk_size);
        assert(subs.last() == subs[n - 1]);
    }
}

/// The chunk under construction.
pub struct Cut {
    /// Longest span of a chunk, in analysis samples.
    chunk_size_samples: u64,
    /// Number of the next speech segment.
    next_vad_seq: u32,
    /// Start of the chunk under construction; `None` between chunks.
    current_start: Option<u64>,
    /// End of the last piece merged.
    current_end: u64,
    /// The pieces of the chunk under construction.
    current_subs: Vec<SubRange>,
}

/// What a [`Cut`] holds.
#[verifier::ext_equal]
pub struct CutView {
    /// Longest span of a chunk.
    pub chunk_size: int,
    /// Number of the next speech segment.
    pub next_vad_seq: int,
    /// Start of the chunk under construction.
    pub start: Option<u64>,
    /// End of the last piece merged.
    pub end: u64,
    /// The pieces of the chunk under construction.
    pub subs: Seq<SubRange>,
}

impl CutView {
    /// The pieces of the chunk under construction fill it in order, and it spans
    /// no more than the chunk size.
    pub open spec fn inv(self) -> bool {
        match self.start {
            None => self.subs.len() == 0,
            Some(start) => {
                &&& chained(self.subs, start as int, self.end as int, self.chunk_size)
                &&& self.end - start <= self.chunk_size
            },
        }
    }

    /// Start of the chunk that the next piece joins, if it joins one.
    pub open spec fn joined_start(self, sub: SubRange) -> u64 {
        match self.start {
            None => sub.range.start,
            Some(start) => start,
        }
    }

    /// The piece does not fit in the chunk under construction.
    pub open spec fn overflows(self, sub: SubRange) -> bool {
        self.start matches Some(start) && sub.range.end - start > self.chunk_size
    }

    /// The chunk under construction.
    pub open spec fn current(self) -> ChunkView {
        ChunkView {
            range: SampleRange { start: self.start->0, end: self.end },
            subs: self.subs,
        }
    }

    /// The state after a piece was merged.
    pub open spec fn after_sub(self, sub: SubRange) -> CutView {
        if self.overflows(sub) {
            CutView {
                start: Some(sub.range.start),
                end: sub.range.end,
                subs: seq![sub],
                ..self
            }
        } else {
            CutView {
                start: Some(self.joined_start(sub)),
                end: sub.range.end,
                subs: self.subs.push(sub),
                ..self
            }
        }
    }

    /// The chunk that merging a piece emits, if any.
    pub open spec fn emitted_by_sub(self, sub: SubRange) -> Seq<ChunkView> {
        if self.overflows(sub) {
            seq![self.current()]
        } else {
            Seq::empty()
        }
    }

    /// The state after pieces were merged in order.
    pub open spec fn after_subs(self, subs: Seq<SubRange>) -> CutView
        decreases subs.len(),
    {
        if subs.len() == 0 {
            self
        } else {
            self.after_subs(subs.drop_last()).after_sub(subs.last())
        }
    }

    /// The chunks that merging pieces in order emits.
    pub open spec fn emitted_by_subs(self, subs: Seq<SubRange>) -> Seq<ChunkView>
        decreases subs.len(),
    {
        if subs.len() == 0 {
            Seq::empty()
        } else {
            self.emitted_by_subs(subs.drop_last()) + self.after_subs(
                subs.drop_last(),
            ).emitted_by_sub(subs.last())
        }
    }

    /// The pieces that the next segment is merged as.
    pub open spec fn pieces_of(self, seg: VadSegment) -> Seq<SubRange> {
        pieces(seg, self.chunk_size, self.next_vad_seq)
    }

    /// The state after a segment was pushed.
    pub open spec fn after_segment(self, seg: VadSegment) -> CutView {
        CutView {
            next_vad_seq: self.next_vad_seq + 1,
            ..self.after_subs(self.pieces_of(seg))
        }
    }

    /// The chunks that pushing a segment emits.
    pub open spec fn emitted_by_segment(self, seg: VadSegment) -> Seq<ChunkView> {
        self.emitted_by_subs(self.pieces_of(seg))
    }

    /// The state between chunks, after the trailing chunk was emitted.
    pub open spec fn after_flush(self) -> CutView {
        CutView { start: None, subs: Seq::empty(), ..self }
    }

    /// The trailing chunk, if there is one.
    pub open spec fn emitted_by_flush(self) -> Seq<ChunkView> {
        if self.start is Some {
            seq![self.current()]
        } else {
            Seq::empty()
        }
    }

    /// The segment follows those pushed before it.
    pub open spec fn follows(self, seg: VadSegment) -> bool {
        seg.wf() && self.end <= seg.start
    }

    /// The segment's number and the numbers of its parts fit their fields.
    pub open spec fn numbers_fit(self, seg: VadSegment) -> bool {
        &&& self.next_vad_seq < u32::MAX
        &&& part_count(seg.end - seg.start, self.chunk_size) <= u8::MAX
    }
}

impl View for Cut {
    type V = CutView;

    closed spec fn view(&self) -> CutView {
        CutView {
            chunk_size: self.chunk_size_samples as int,
            next_vad_seq: self.next_vad_seq as int,
            start: self.current_start,
            end: self.current_end,
            subs: self.current_subs@,
        }
    }
}

impl Cut {
    /// Nothing pushed yet; chunks will span at most `chunk_size_samples`.
    pub fn new(chunk_size_samples: u64) -> (cut: Cut)
        ensures
            cut@ == (CutView {
                chunk_size: chunk_size_samples as int,
                next_vad_seq: 0,
                start: None,
                end: 0,
                subs: Seq::empty(),
            }),
            cut@.inv(),
    {
        Cut {
            chunk_size_samples,
            next_vad_seq: 0,
            current_start: None,
            current_end: 0,
            current_subs: Vec::new(),
        }
    }

    /// Longest span of a chunk, in analysis samples.
    pub fn chunk_size_samples(&self) -> (samples: u64)
        ensures
            samples == self@.chunk_size,
    {
        self.chunk_size_samples
    }

    /// Bounds of the chunk under construction; `None` between chunks.
    pub fn open_range(&self) -> (open: Option<SampleRange>)
        ensures
            open == match self@.start {
                Some(start) => Some(SampleRange { start, end: self@.end }),
                None => None,
            },
    {
        match self.current_start {
            Some(start) => Some(SampleRange { start, end: self.current_end }),
            None => None,
        }
    }

    /// End of the last segment pushed; zero before the first.
    pub fn high_water(&self) -> (end: u64)
        ensures
            end == self@.end,
    {
        self.current_end
    }

    /// Push the next speech segment. Gives the chunks that it completes, in
    /// order.
    pub fn push_segment(&mut self, seg: VadSegment) -> (emitted: Vec<MergedChunk>)
        requires
            old(self)@.inv(),
            old(self)@.chunk_size > 0,
            old(self)@.follows(seg),
            old(self)@.numbers_fit(seg),
        ensures
            final(self)@ == old(self)@.after_segment(seg),
            final(self)@.inv(),
            final(self)@.end == seg.end,
            final(self)@.chunk_size == old(self)@.chunk_size,
            chunk_views(emitted@) == old(self)@.emitted_by_segment(seg),
    {
        let vad_seq: u32 = self.next_vad_seq;
        let mut emitted: Vec<MergedChunk> = Vec::new();
        proof {
            pieces_partition_the_segment(seg, self@.chunk_size, vad_seq as int);
            assert(chunk_views(emitted@) =~= Seq::<ChunkView>::empty());
        }
        if seg.end - seg.start <= self.chunk_size_samples {
            let sub = SubRange {
                range: SampleRange::new(seg.start, seg.end),
                origin: SubOrigin::Vad { vad_seq },
            };
            proof {
                let subs = old(self)@.pieces_of(seg);
                lemma_merge_step(old(self)@, subs, 0);
                assert(subs.take(1) =~= subs);
                assert(subs[0] == sub);
            }
            self.push_sub(sub, &mut emitted);
        } else {
            self.push_parts(seg, &mut emitted);
        }
        assert(chunk_views(emitted@) =~= old(self)@.emitted_by_segment(seg));
        self.next_vad_seq = vad_seq + 1;
        emitted
    }

    /// Merge the parts of a segment that is longer than the chunk size.
    fn push_parts(&mut self, seg: VadSegment, emitted: &mut Vec<MergedChunk>)
        requires
            old(self)@.inv(),
            0 < old(self)@.chunk_size < seg.end - seg.start,
            old(self)@.follows(seg),
            old(self)@.numbers_fit(seg),
            old(emitted)@.len() == 0,
        ensures
            final(self)@ == old(self)@.after_subs(old(self)@.pieces_of(seg)),
            final(self)@.inv(),
            final(self)@.end == seg.end,
            final(self)@.chunk_size == old(self)@.chunk_size,
            chunk_views(final(emitted)@) == old(self)@.emitted_by_segment(seg),
    {
        let vad_seq: u32 = self.next_vad_seq;
        let chunk_size: u64 = self.chunk_size_samples;
        let len: u64 = seg.end - seg.start;
        let ghost subs = old(self)@.pieces_of(seg);
        proof {
            pieces_partition_the_segment(seg, chunk_size as int, vad_seq as int);
            lemma_ceil(len as int, chunk_size as int);
            lemma_merge_step(old(self)@, subs, 0);
            assert(chunk_views(emitted@) =~= Seq::<ChunkView>::empty());
        }
        let whole: u64 = len / chunk_size;
        let total: u64 = if len % chunk_size > 0 {
            whole + 1
        } else {
            whole
        };
        let mut start: u64 = seg.start;
        let mut part: u64 = 0;
        while part < total
            invariant
                part <= total == subs.len(),
                total <= u8::MAX,
                total == part_count(seg.end - seg.start, chunk_size as int),
                0 < chunk_size < seg.end - seg.start,
                subs == pieces(seg, chunk_size as int, vad_seq as int),
                chained(subs, seg.start as int, seg.end as int, chunk_size as int),
                old(self)@.inv(),
                old(self)@.chunk_size == chunk_size,
                old(self)@.end <= seg.start,
                part < total ==> start == seg.start + part * chunk_size,
                self@ == old(self)@.after_subs(subs.take(part as int)),
                chunk_views(emitted@) == old(self)@.emitted_by_subs(subs.take(part as int)),
            decreases total - part,
        {
            proof {
                lemma_split_part(seg, chunk_size as int, vad_seq as int, part as int);
                lemma_merge_step(old(self)@, subs, part as int);
            }
            let end: u64 = if chunk_size < seg.end - start {
                start + chunk_size
            } else {
                seg.end
            };
            let sub = SubRange {
                range: SampleRange::new(start, end),
                origin: SubOrigin::HardSplit {
                    vad_seq,
                    part: part as u8,
                    total_parts: total as u8,
                },
            };
            assert(sub == subs[part as int]);
            self.push_sub(sub, emitted);
            start = end;
            part += 1;
        }
        proof {
            lemma_merge_step(old(self)@, subs, total - 1);
            assert(subs.take(total as int) =~= subs);
        }
    }

    /// Emit the trailing chunk, if there is one.
    pub fn flush(&mut self) -> (emitted: Option<MergedChunk>)
        requires
            old(self)@.inv(),
        ensures
            final(self)@ == old(self)@.after_flush(),
            final(self)@.inv(),
            match emitted {
                Some(chunk) => old(self)@.emitted_by_flush() == seq![chunk@],
                None => old(self)@.emitted_by_flush() == Seq::<ChunkView>::empty(),
            },
    {
        match self.current_start {
            None => {
                assert(self@.subs =~= Seq::empty());
                None
            },
            Some(start) => {
                let mut subs: Vec<SubRange> = Vec::new();
                std::mem::swap(&mut subs, &mut self.current_subs);
                self.current_start = None;
                proof {
                    lemma_chained_ordered(
                        old(self)@.subs,
                        start as int,
                        old(self)@.end as int,
                        old(self)@.chunk_size,
                    );
                }
                Some(MergedChunk { range: SampleRange::new(start, self.current_end), subs })
            },
        }
    }

    /// Merge one piece and note the chunk that it completes.
    fn push_sub(&mut self, sub: SubRange, emitted: &mut Vec<MergedChunk>)
        requires
            old(self)@.inv(),
            sub.range.wf(),
            old(self)@.end <= sub.range.start,
        ensures
            final(self)@ == old(self)@.after_sub(sub),
            chunk_views(final(emitted)@) == chunk_views(old(emitted)@)
                + old(self)@.emitted_by_sub(sub),
    {
        match self.current_start {
            Some(start) => {
                if sub.range.end - start > self.chunk_size_samples {
                    let mut subs: Vec<SubRange> = Vec::new();
                    subs.push(sub);
                    std::mem::swap(&mut subs, &mut self.current_subs);
                    let chunk = MergedChunk {
                        range: SampleRange::new(start, self.current_end),
                        subs,
                    };
                    self.current_start = Some(sub.range.start);
                    self.current_end = sub.range.end;
                    emitted.push(chunk);
                    assert(self@.subs =~= seq![sub]);
                    assert(chunk_views(emitted@) =~= chunk_views(old(emitted)@).push(chunk@));
                    return;
                }
            },
            None => {
                self.current_start = Some(sub.range.start);
            },
        }
        self.current_end = sub.range.end;
        self.current_subs.push(sub);
        assert(chunk_views(emitted@) =~= chunk_views(old(emitted)@) + Seq::empty());
    }
}

impl CutView {
    /// The state after segments were pushed in order.
    pub open spec fn after_segments(self, segs: Seq<VadSegment>) -> CutView
        decreases segs.len(),
    {
        if segs.len() == 0 {
            self
        } else {
            self.after_segments(segs.drop_last()).after_segment(segs.last())
        }
    }

    /// The chunks that pushing segments in order emits.
    pub open spec fn emitted_by_segments(self, segs: Seq<VadSegment>) -> Seq<ChunkView>
        decreases segs.len(),
    {
        if segs.len() == 0 {
            Seq::empty()
        } else {
            self.emitted_by_segments(segs.drop_last()) + self.after_segments(
                segs.drop_last(),
            ).emitted_by_segment(segs.last())
        }
    }

    /// The chunks of a stream of segments, the trailing one included.
    pub open spec fn chunks_of(self, segs: Seq<VadSegment>) -> Seq<ChunkView> {
        self.emitted_by_segments(segs) + self.after_segments(segs).emitted_by_flush()
    }

    /// The pieces of a stream of segments.
    pub open spec fn pieces_of_all(self, segs: Seq<VadSegment>) -> Seq<SubRange>
        decreases segs.len(),
    {
        if segs.len() == 0 {
            Seq::empty()
        } else {
            self.pieces_of_all(segs.drop_last()) + pieces(
                segs.last(),
                self.chunk_size,
                self.next_vad_seq + segs.len() - 1,
            )
        }
    }
}

/// Every chunk spans no more than the chunk size and is filled by its pieces;
/// every chunk starts before the later ones and ends before or where they start.
pub open spec fn well_cut(chunks: Seq<ChunkView>, chunk_size: int) -> bool {
    &&& forall|i: int|
        0 <= i < chunks.len() ==> {
            &&& (#[trigger] chunks[i]).wf(chunk_size)
            &&& 0 <= chunks[i].range.span() <= chunk_size
        }
    &&& forall|i: int, j: int|
        0 <= i < j < chunks.len() ==> {
            &&& (#[trigger] chunks[i]).range.end <= (#[trigger] chunks[j]).range.start
            &&& chunks[i].range.start < chunks[j].range.start
        }
}

/// The pieces of a list of chunks, one chunk after the other.
pub open spec fn speech_of(chunks: Seq<ChunkView>) -> Seq<SubRange>
    decreases chunks.len(),
{
    if chunks.len() == 0 {
        Seq::empty()
    } else {
        speech_of(chunks.drop_last()) + chunks.last().subs
    }
}

/// Well-formed segments, each starting at or after the end of the one before.
pub open spec fn speech_in_order(segs: Seq<VadSegment>) -> bool {
    &&& forall|i: int| 0 <= i < segs.len() ==> (#[trigger] segs[i]).wf()
    &&& forall|i: int, j: int|
        0 <= i < j < segs.len() ==> (#[trigger] segs[i]).end <= (#[trigger] segs[j]).start
}

/// No chunk spans more than the chunk size, chunks are strictly ordered and do
/// not overlap, and their pieces are exactly the pieces of the segments, in
/// order: whatever segments are pushed in order, from a fresh state to the flush
/// at the end.
pub proof fn chunks_are_well_cut(fresh: CutView, segs: Seq<VadSegment>)
    requires
        fresh.chunk_size > 0,
        fresh.start is None,
        fresh.subs.len() == 0,
        fresh.end == 0,
        speech_in_order(segs),
    ensures
        well_cut(fresh.chunks_of(segs), fresh.chunk_size),
        speech_of(fresh.chunks_of(segs)) == fresh.pieces_of_all(segs),
{
    let e0 = Seq::<ChunkView>::empty();
    assert(speech_of(e0) + fresh.subs =~= Seq::<SubRange>::empty());
    lemma_stream_so_far(fresh, segs);
    let e = fresh.emitted_by_segments(segs);
    let w = fresh.after_segments(segs);
    let merged = fresh.pieces_of_all(segs);
    if w.start is Some {
        let all = e.push(w.current());
        assert(fresh.chunks_of(segs) =~= all);
        lemma_chained_ordered(w.subs, w.start->0 as int, w.end as int, w.chunk_size);
        assert(all.drop_last() =~= e);
    } else {
        assert(fresh.chunks_of(segs) =~= e);
        assert(speech_of(e) + w.subs =~= speech_of(e));
    }
}

/// No chunk is longer than the chunk size, from its start to its end, and none ends
/// before it starts. Each starts with its first piece and ends with its last, and
/// a later one starts no earlier than the one before it ends.
pub proof fn chunks_last_no_longer_than_the_chunk_size(
    fresh: CutView,
    segs: Seq<VadSegment>,
    i: int,
)
    requires
        fresh.chunk_size > 0,
        fresh.start is None,
        fresh.subs.len() == 0,
        fresh.end == 0,
        speech_in_order(segs),
        0 <= i < fresh.chunks_of(segs).len(),
    ensures
        ({
            let chunk = fresh.chunks_of(segs)[i];
            &&& 0 <= chunk.range.end - chunk.range.start <= fresh.chunk_size
            &&& chunk.subs.len() > 0
            &&& chunk.subs[0].range.start == chunk.range.start
            &&& chunk.subs.last().range.end == chunk.range.end
            &&& i > 0 ==> fresh.chunks_of(segs)[i - 1].range.end <= chunk.range.start
            &&& chunk.range.span() == chunk.range.end - chunk.range.start
        }),
{
    chunks_are_well_cut(fresh, segs);
    let chunk = fresh.chunks_of(segs)[i];
    assert(chunk.wf(fresh.chunk_size));
}

/// Merging is greedy: a chunk ends only where the next piece does not fit. Of
/// two chunks in a row, the first piece of the later one would have stretched
/// the earlier one beyond the chunk size, whatever the pause between them.
pub proof fn chunks_are_maximal(fresh: CutView, segs: Seq<VadSegment>, i: int)
    requires
        fresh.chunk_size > 0,
        fresh.start is None,
        fresh.subs.len() == 0,
        fresh.end == 0,
        speech_in_order(segs),
        0 <= i < fresh.chunks_of(segs).len() - 1,
    ensures
        fresh.chunks_of(segs)[i + 1].subs.len() > 0,
        fresh.chunks_of(segs)[i + 1].subs[0].range.end - fresh.chunks_of(segs)[i].range.start
            > fresh.chunk_size,
{
    let e0 = Seq::<ChunkView>::empty();
    assert(speech_of(e0) + fresh.subs =~= Seq::<SubRange>::empty());
    lemma_stream_so_far(fresh, segs);
    let e = fresh.emitted_by_segments(segs);
    let w = fresh.after_segments(segs);
    if i + 1 < e.len() {
        assert(fresh.chunks_of(segs)[i] == e[i]);
        assert(fresh.chunks_of(segs)[i + 1] == e[i + 1]);
    } else {
        assert(fresh.chunks_of(segs)[i] == e[i]);
        assert(fresh.chunks_of(segs)[i + 1] == w.current());
    }
}

/// A stream of speech that fits in one chunk as a whole is one chunk.
pub proof fn short_streams_are_one_chunk(fresh: CutView, segs: Seq<VadSegment>)
    requires
        fresh.chunk_size > 0,
        fresh.start is None,
        fresh.subs.len() == 0,
        fresh.end == 0,
        speech_in_order(segs),
        segs.len() > 0,
        segs.last().end - segs[0].start <= fresh.chunk_size,
    ensures
        fresh.chunks_of(segs).len() == 1,
        fresh.chunks_of(segs)[0].range.start == segs[0].start,
        fresh.chunks_of(segs)[0].range.end == segs.last().end,
{
    chunks_are_well_cut(fresh, segs);
    let chunks = fresh.chunks_of(segs);
    let e0 = Seq::<ChunkView>::empty();
    assert(speech_of(e0) + fresh.subs =~= Seq::<SubRange>::empty());
    lemma_stream_so_far(fresh, segs);
    let w = fresh.after_segments(segs);
    lemma_after_any_segment(fresh, segs);
    lemma_pieces_of_all_in_order(fresh, segs);
    assert(chunks.last() == w.current());
    lemma_speech_starts_first(chunks);
    assert(chunks[0].range.start == segs[0].start);
    if chunks.len() > 1 {
        chunks_are_maximal(fresh, segs, 0);
        lemma_subs_within(chunks[1], fresh.chunk_size);
        if chunks.len() > 2 {
            assert(chunks[1].range.end <= chunks[chunks.len() - 1].range.start);
        }
        assert(chunks[chunks.len() - 1].range.wf());
        assert(false);
    }
}

proof fn lemma_subs_within(chunk: ChunkView, chunk_size: int)
    requires
        chunk.wf(chunk_size),
    ensures
        chunk.subs[0].range.end <= chunk.range.end,
{
    lemma_chained_within(chunk, chunk_size);
    assert(chunk.subs[0].range.end <= chunk.range.end);
}

proof fn lemma_after_any_segment(fresh: CutView, segs: Seq<VadSegment>)
    requires
        fresh.chunk_size > 0,
        fresh.start is None,
        fresh.subs.len() == 0,
        fresh.end == 0,
        speech_in_order(segs),
        segs.len() > 0,
    ensures
        fresh.after_segments(segs).start is Some,
        fresh.after_segments(segs).end == segs.last().end,
{
    let e0 = Seq::<ChunkView>::empty();
    assert(speech_of(e0) + fresh.subs =~= Seq::<SubRange>::empty());
    let before = segs.drop_last();
    let last = segs.len() - 1;
    assert forall|i: int| 0 <= i < before.len() implies before[i] == segs[i] by {}
    assert(speech_in_order(before));
    lemma_stream_so_far(fresh, before);
    assert(segs[last].wf());
    if before.len() > 0 {
        assert(segs[last - 1].end <= segs[last].start);
    }
    completed_chunks_are_filled(fresh.after_segments(before), segs.last());
    lemma_stream_so_far(fresh, segs);
}

proof fn lemma_pieces_of_all_in_order(fresh: CutView, segs: Seq<VadSegment>)
    requires
        fresh.chunk_size > 0,
        speech_in_order(segs),
        segs.len() > 0,
    ensures
        fresh.pieces_of_all(segs).len() > 0,
        fresh.pieces_of_all(segs)[0].range.start == segs[0].start,
    decreases segs.len(),
{
    assert(segs[segs.len() - 1].wf());
    pieces_partition_the_segment(
        segs.last(),
        fresh.chunk_size,
        fresh.next_vad_seq + segs.len() - 1,
    );
    if segs.len() > 1 {
        let before = segs.drop_last();
        assert forall|i: int| 0 <= i < before.len() implies before[i] == segs[i] by {}
        assert(speech_in_order(before));
        lemma_pieces_of_all_in_order(fresh, before);
    } else {
        assert(fresh.pieces_of_all(segs.drop_last()) =~= Seq::empty());
    }
}

proof fn lemma_speech_starts_first(chunks: Seq<ChunkView>)
    requires
        chunks.len() > 0,
        forall|i: int| 0 <= i < chunks.len() ==> (#[trigger] chunks[i]).subs.len() > 0,
    ensures
        speech_of(chunks).len() > 0,
        speech_of(chunks)[0] == chunks[0].subs[0],
    decreases chunks.len(),
{
    let before = chunks.drop_last();
    if before.len() > 0 {
        assert forall|i: int| 0 <= i < before.len() implies (#[trigger] before[i]).subs.len() > 0 by {
            assert(before[i] == chunks[i]);
        }
        lemma_speech_starts_first(before);
    } else {
        assert(speech_of(before) =~= Seq::empty());
    }
    assert(chunks[chunks.len() - 1].subs.len() > 0);
}

/// A segment that is no longer than a chunk stays whole; a longer one is split
/// into as few parts as will do, each but the last of the chunk size. Parts
/// follow one another without gap and are numbered from zero, and all pieces
/// carry the number of their segment.
pub proof fn long_segments_are_split_by_the_chunk_size(
    seg: VadSegment,
    chunk_size: int,
    vad_seq: int,
)
    requires
        seg.wf(),
        chunk_size > 0,
        0 <= vad_seq <= u32::MAX,
        pieces(seg, chunk_size, vad_seq).len() <= u8::MAX,
    ensures
        ({
            let subs = pieces(seg, chunk_size, vad_seq);
            let n = subs.len() as int;
            if seg.end - seg.start <= chunk_size {
                &&& n == 1
                &&& subs[0].range.start == seg.start
                &&& subs[0].range.end == seg.end
                &&& subs[0].origin matches SubOrigin::Vad { vad_seq: number } && number == vad_seq
            } else {
                &&& (n - 1) * chunk_size < seg.end - seg.start <= n * chunk_size
                &&& forall|i: int|
                    0 <= i < n ==> {
                        &&& (#[trigger] subs[i]).range.start == seg.start + i * chunk_size
                        &&& i < n - 1 ==> subs[i].range.end == subs[i].range.start + chunk_size
                        &&& i == n - 1 ==> subs[i].range.end == seg.end
                        &&& subs[i].origin matches SubOrigin::HardSplit {
                            vad_seq: number,
                            part,
                            total_parts,
                        } && number == vad_seq && part == i && total_parts == n
                    }
            }
        }),
{
    let len = seg.end - seg.start;
    if len > chunk_size {
        let n = part_count(len, chunk_size);
        let subs = pieces(seg, chunk_size, vad_seq);
        lemma_part_count(len, chunk_size);
        assert forall|i: int| 0 <= i < n implies {
            &&& (#[trigger] subs[i]).range.start == seg.start + i * chunk_size
            &&& i < n - 1 ==> subs[i].range.end == subs[i].range.start + chunk_size
            &&& i == n - 1 ==> subs[i].range.end == seg.end
        } by {
            lemma_split_part(seg, chunk_size, vad_seq, i);
            assert((i + 1) * chunk_size == i * chunk_size + chunk_size) by (nonlinear_arith);
        }
    }
}

/// Every piece of speech in a chunk lies inside the segment whose number it
/// carries; segments are numbered in the order in which they are pushed.
pub proof fn pieces_lie_in_the_segments_they_name(
    fresh: CutView,
    segs: Seq<VadSegment>,
    chunk: int,
    i: int,
)
    requires
        fresh.chunk_size > 0,
        fresh.start is None,
        fresh.subs.len() == 0,
        fresh.end == 0,
        speech_in_order(segs),
        0 <= fresh.next_vad_seq,
        fresh.next_vad_seq + segs.len() <= u32::MAX,
        0 <= chunk < fresh.chunks_of(segs).len(),
        0 <= i < fresh.chunks_of(segs)[chunk].subs.len(),
    ensures
        ({
            let sub = fresh.chunks_of(segs)[chunk].subs[i];
            let number = match sub.origin {
                SubOrigin::Vad { vad_seq } => vad_seq,
                SubOrigin::HardSplit { vad_seq, .. } => vad_seq,
            };
            let k = number - fresh.next_vad_seq;
            &&& 0 <= k < segs.len()
            &&& segs[k].start <= sub.range.start <= sub.range.end <= segs[k].end
        }),
{
    chunks_are_well_cut(fresh, segs);
    let sub = fresh.chunks_of(segs)[chunk].subs[i];
    lemma_in_speech(fresh.chunks_of(segs), chunk, i);
    let j = choose|j: int|
        0 <= j < fresh.pieces_of_all(segs).len() && #[trigger] fresh.pieces_of_all(segs)[j] == sub;
    lemma_piece_of_all(fresh, segs, j);
}

proof fn lemma_in_speech(chunks: Seq<ChunkView>, chunk: int, i: int)
    requires
        0 <= chunk < chunks.len(),
        0 <= i < chunks[chunk].subs.len(),
    ensures
        exists|j: int|
            0 <= j < speech_of(chunks).len() && #[trigger] speech_of(chunks)[j]
                == chunks[chunk].subs[i],
    decreases chunks.len(),
{
    let before = speech_of(chunks.drop_last());
    if chunk == chunks.len() - 1 {
        assert(speech_of(chunks)[before.len() + i] == chunks[chunk].subs[i]);
    } else {
        lemma_in_speech(chunks.drop_last(), chunk, i);
        let j = choose|j: int|
            0 <= j < before.len() && #[trigger] before[j] == chunks[chunk].subs[i];
        assert(speech_of(chunks)[j] == chunks[chunk].subs[i]);
    }
}

proof fn lemma_from_chunk(chunks: Seq<ChunkView>, j: int) -> (place: (int, int))
    requires
        0 <= j < speech_of(chunks).len(),
    ensures
        0 <= place.0 < chunks.len(),
        0 <= place.1 < chunks[place.0].subs.len(),
        chunks[place.0].subs[place.1] == speech_of(chunks)[j],
    decreases chunks.len(),
{
    let before = speech_of(chunks.drop_last());
    if j < before.len() {
        lemma_from_chunk(chunks.drop_last(), j)
    } else {
        (chunks.len() - 1, j - before.len())
    }
}

proof fn lemma_piece_of_all(fresh: CutView, segs: Seq<VadSegment>, j: int)
    requires
        fresh.chunk_size > 0,
        speech_in_order(segs),
        0 <= fresh.next_vad_seq,
        fresh.next_vad_seq + segs.len() <= u32::MAX,
        0 <= j < fresh.pieces_of_all(segs).len(),
    ensures
        ({
            let sub = fresh.pieces_of_all(segs)[j];
            let number = match sub.origin {
                SubOrigin::Vad { vad_seq } => vad_seq,
                SubOrigin::HardSplit { vad_seq, .. } => vad_seq,
            };
            let k = number - fresh.next_vad_seq;
            &&& 0 <= k < segs.len()
            &&& segs[k].start <= sub.range.start <= sub.range.end <= segs[k].end
        }),
    decreases segs.len(),
{
    let before = segs.drop_last();
    let last = segs.len() - 1;
    let n = fresh.pieces_of_all(before).len();
    assert(segs[last].wf());
    if j < n {
        assert forall|i: int| 0 <= i < before.len() implies before[i] == segs[i] by {}
        assert(speech_in_order(before));
        lemma_piece_of_all(fresh, before, j);
    } else {
        let subs = pieces(segs[last], fresh.chunk_size, fresh.next_vad_seq + last);
        pieces_partition_the_segment(segs[last], fresh.chunk_size, fresh.next_vad_seq + last);
        lemma_chained_ordered(
            subs,
            segs[last].start as int,
            segs[last].end as int,
            fresh.chunk_size,
        );
        let whole = ChunkView {
            range: SampleRange { start: segs[last].start, end: segs[last].end },
            subs,
        };
        lemma_chained_within(whole, fresh.chunk_size);
        assert(whole.subs[j - n] == fresh.pieces_of_all(segs)[j]);
        assert(subs[j - n].range.wf());
    }
}

/// No sample of speech is lost and none is made up: a sample lies in a piece of
/// some chunk exactly if it lies in some segment.
pub proof fn chunks_hold_exactly_the_speech(fresh: CutView, segs: Seq<VadSegment>, sample: int)
    requires
        fresh.chunk_size > 0,
        fresh.start is None,
        fresh.subs.len() == 0,
        fresh.end == 0,
        speech_in_order(segs),
        0 <= fresh.next_vad_seq,
        fresh.next_vad_seq + segs.len() <= u32::MAX,
    ensures
        (exists|chunk: int, i: int|
            0 <= chunk < fresh.chunks_of(segs).len() && 0 <= i < fresh.chunks_of(
                segs,
            )[chunk].subs.len() && (
            #[trigger] fresh.chunks_of(segs)[chunk].subs[i]).range.start <= sample
                < fresh.chunks_of(segs)[chunk].subs[i].range.end) <==> (exists|k: int|
            0 <= k < segs.len() && (#[trigger] segs[k]).start <= sample < segs[k].end),
{
    let chunks = fresh.chunks_of(segs);
    let all = fresh.pieces_of_all(segs);
    chunks_are_well_cut(fresh, segs);
    if exists|chunk: int, i: int|
        0 <= chunk < chunks.len() && 0 <= i < chunks[chunk].subs.len() && (
        #[trigger] chunks[chunk].subs[i]).range.start <= sample < chunks[chunk].subs[i].range.end {
        let (chunk, i) = choose|chunk: int, i: int|
            0 <= chunk < chunks.len() && 0 <= i < chunks[chunk].subs.len() && (
            #[trigger] chunks[chunk].subs[i]).range.start <= sample
                < chunks[chunk].subs[i].range.end;
        pieces_lie_in_the_segments_they_name(fresh, segs, chunk, i);
    }
    if exists|k: int| 0 <= k < segs.len() && (#[trigger] segs[k]).start <= sample < segs[k].end {
        let k = choose|k: int|
            0 <= k < segs.len() && (#[trigger] segs[k]).start <= sample < segs[k].end;
        let j = lemma_sample_in_pieces(fresh, segs, k, sample);
        let place = lemma_from_chunk(chunks, j);
        assert(chunks[place.0].subs[place.1].range.start <= sample);
    }
}

proof fn lemma_sample_in_pieces(
    fresh: CutView,
    segs: Seq<VadSegment>,
    k: int,
    sample: int,
) -> (j: int)
    requires
        fresh.chunk_size > 0,
        speech_in_order(segs),
        0 <= k < segs.len(),
        segs[k].start <= sample < segs[k].end,
    ensures
        0 <= j < fresh.pieces_of_all(segs).len(),
        fresh.pieces_of_all(segs)[j].range.start <= sample
            < fresh.pieces_of_all(segs)[j].range.end,
    decreases segs.len(),
{
    let before = segs.drop_last();
    let last = segs.len() - 1;
    let n = fresh.pieces_of_all(before).len();
    if k < last {
        assert forall|i: int| 0 <= i < before.len() implies before[i] == segs[i] by {}
        assert(speech_in_order(before));
        lemma_sample_in_pieces(fresh, before, k, sample)
    } else {
        let vad_seq = fresh.next_vad_seq + last;
        let i = lemma_sample_in_segment(segs[last], fresh.chunk_size, vad_seq, sample);
        assert(fresh.pieces_of_all(segs)[n + i] == pieces(
            segs[last],
            fresh.chunk_size,
            vad_seq,
        )[i]);
        n + i
    }
}

proof fn lemma_sample_in_segment(
    seg: VadSegment,
    chunk_size: int,
    vad_seq: int,
    sample: int,
) -> (i: int)
    requires
        seg.wf(),
        chunk_size > 0,
        seg.start <= sample < seg.end,
    ensures
        0 <= i < pieces(seg, chunk_size, vad_seq).len(),
        pieces(seg, chunk_size, vad_seq)[i].range.start <= sample
            < pieces(seg, chunk_size, vad_seq)[i].range.end,
{
    let subs = pieces(seg, chunk_size, vad_seq);
    pieces_partition_the_segment(seg, chunk_size, vad_seq);
    lemma_sample_in_chain(subs, sample, subs.len() as int)
}

proof fn lemma_sample_in_chain(subs: Seq<SubRange>, sample: int, n: int) -> (i: int)
    requires
        0 < n <= subs.len(),
        forall|i: int, j: int|
            0 <= i && j == i + 1 && j < subs.len() ==> (#[trigger] subs[i]).range.end == (
            #[trigger] subs[j]).range.start,
        subs[0].range.start <= sample < subs[n - 1].range.end,
    ensures
        0 <= i < n,
        subs[i].range.start <= sample < subs[i].range.end,
    decreases n,
{
    if subs[n - 1].range.start <= sample {
        n - 1
    } else {
        assert(subs[n - 2].range.end == subs[n - 1].range.start);
        lemma_sample_in_chain(subs, sample, n - 1)
    }
}

/// What holds of the chunks emitted so far, the state they leave, and the
/// pieces merged so far.
spec fn cut_so_far(e: Seq<ChunkView>, w: CutView, merged: Seq<SubRange>) -> bool {
    &&& w.inv()
    &&& well_cut(e, w.chunk_size)
    &&& forall|i: int|
        0 <= i < e.len() ==> {
            &&& w.start matches Some(start) && (#[trigger] e[i]).range.start < start
            &&& e[i].range.end <= w.start->0
        }
    &&& speech_of(e) + w.subs == merged
    &&& forall|i: int, j: int|
        0 <= i && j == i + 1 && j < e.len() ==> (#[trigger] e[j]).subs[0].range.end - (
        #[trigger] e[i]).range.start > w.chunk_size
    &&& e.len() > 0 ==> w.subs.len() > 0 && w.subs[0].range.end - e.last().range.start
        > w.chunk_size
}

proof fn lemma_cut_one(e: Seq<ChunkView>, w: CutView, merged: Seq<SubRange>, sub: SubRange)
    requires
        cut_so_far(e, w, merged),
        sub.range.wf(),
        sub.range.span() <= w.chunk_size,
        w.end <= sub.range.start,
    ensures
        cut_so_far(e + w.emitted_by_sub(sub), w.after_sub(sub), merged.push(sub)),
{
    lemma_after_sub(w, sub);
    if w.overflows(sub) {
        let all = e + w.emitted_by_sub(sub);
        assert(all =~= e.push(w.current()));
        assert(all.drop_last() =~= e);
        assert(speech_of(all) + seq![sub] =~= merged.push(sub));
    } else {
        assert(e + w.emitted_by_sub(sub) =~= e);
        assert(speech_of(e) + w.subs.push(sub) =~= merged.push(sub));
    }
}

proof fn lemma_cut_subs(
    e: Seq<ChunkView>,
    w: CutView,
    merged: Seq<SubRange>,
    subs: Seq<SubRange>,
    n: int,
)
    requires
        cut_so_far(e, w, merged),
        chained(subs, subs[0].range.start as int, subs.last().range.end as int, w.chunk_size),
        w.end <= subs[0].range.start,
        0 <= n <= subs.len(),
    ensures
        cut_so_far(
            e + w.emitted_by_subs(subs.take(n)),
            w.after_subs(subs.take(n)),
            merged + subs.take(n),
        ),
    decreases n,
{
    if n == 0 {
        assert(e + w.emitted_by_subs(subs.take(0)) =~= e);
        assert(merged + subs.take(0) =~= merged);
    } else {
        lemma_cut_subs(e, w, merged, subs, n - 1);
        lemma_merge_step(w, subs, n - 1);
        let e1 = e + w.emitted_by_subs(subs.take(n - 1));
        let w1 = w.after_subs(subs.take(n - 1));
        assert(subs[n - 1].range.wf());
        lemma_after_subs(
            w,
            subs,
            subs[0].range.start as int,
            subs.last().range.end as int,
            n - 1,
        );
        lemma_cut_one(e1, w1, merged + subs.take(n - 1), subs[n - 1]);
        assert(e1 + w1.emitted_by_sub(subs[n - 1]) =~= e + w.emitted_by_subs(subs.take(n)));
        assert((merged + subs.take(n - 1)).push(subs[n - 1]) =~= merged + subs.take(n));
    }
}

proof fn lemma_cut_segment(
    e: Seq<ChunkView>,
    w: CutView,
    merged: Seq<SubRange>,
    seg: VadSegment,
)
    requires
        cut_so_far(e, w, merged),
        w.chunk_size > 0,
        w.end <= seg.start <= seg.end,
    ensures
        cut_so_far(e + w.emitted_by_segment(seg), w.after_segment(seg), merged + w.pieces_of(seg)),
        w.after_segment(seg).chunk_size == w.chunk_size,
        w.after_segment(seg).end == seg.end,
{
    let subs = w.pieces_of(seg);
    pieces_partition_the_segment(seg, w.chunk_size, w.next_vad_seq);
    lemma_cut_subs(e, w, merged, subs, subs.len() as int);
    lemma_after_subs(w, subs, seg.start as int, seg.end as int, subs.len() as int);
    assert(subs.take(subs.len() as int) =~= subs);
}

proof fn lemma_stream_so_far(fresh: CutView, segs: Seq<VadSegment>)
    requires
        fresh.chunk_size > 0,
        fresh.end == 0,
        cut_so_far(Seq::empty(), fresh, Seq::empty()),
        speech_in_order(segs),
    ensures
        cut_so_far(
            fresh.emitted_by_segments(segs),
            fresh.after_segments(segs),
            fresh.pieces_of_all(segs),
        ),
        fresh.after_segments(segs).chunk_size == fresh.chunk_size,
        fresh.after_segments(segs).next_vad_seq == fresh.next_vad_seq + segs.len(),
        fresh.after_segments(segs).end == (if segs.len() == 0 {
            0
        } else {
            segs.last().end
        }),
    decreases segs.len(),
{
    if segs.len() > 0 {
        let before = segs.drop_last();
        let last = segs.len() - 1;
        assert forall|i: int| 0 <= i < before.len() implies before[i] == segs[i] by {}
        assert(speech_in_order(before));
        lemma_stream_so_far(fresh, before);
        assert(segs[last].wf());
        if before.len() > 0 {
            assert(segs[last - 1].end <= segs[last].start);
        }
        lemma_cut_segment(
            fresh.emitted_by_segments(before),
            fresh.after_segments(before),
            fresh.pieces_of_all(before),
            segs.last(),
        );
    }
}

impl ChunkView {
    /// Every piece lies inside the chunk.
    pub open spec fn covers_its_pieces(self) -> bool {
        forall|i: int|
            0 <= i < self.subs.len() ==> self.range.start <= (#[trigger] self.subs[i]).range.start
                <= self.subs[i].range.end <= self.range.end
    }
}

proof fn lemma_chained_within(chunk: ChunkView, chunk_size: int)
    requires
        chained(chunk.subs, chunk.range.start as int, chunk.range.end as int, chunk_size),
    ensures
        chunk.wf(chunk_size),
        chunk.covers_its_pieces(),
{
    let subs = chunk.subs;
    let n = subs.len() - 1;
    lemma_chained_ordered(subs, chunk.range.start as int, chunk.range.end as int, chunk_size);
    assert forall|i: int| 0 <= i < subs.len() implies chunk.range.start <= (
    #[trigger] subs[i]).range.start <= subs[i].range.end <= chunk.range.end by {
        assert(subs[0].range.wf() && subs[i].range.wf() && subs[n].range.wf());
        if i > 0 {
            assert(subs[0].range.end <= subs[i].range.start);
        }
        if i < n {
            assert(subs[i].range.end <= subs[n].range.start);
        }
    }
}

proof fn lemma_emitted(v: CutView, subs: Seq<SubRange>, n: int)
    requires
        v.inv(),
        chained(subs, subs[0].range.start as int, subs.last().range.end as int, v.chunk_size),
        v.end <= subs[0].range.start,
        0 <= n <= subs.len(),
    ensures
        ({
            let e = v.emitted_by_subs(subs.take(n));
            let w = v.after_subs(subs.take(n));
            &&& w.start matches Some(s) ==> v.joined_start(subs[0]) <= s
            &&& n > 0 ==> w.start is Some
            &&& w.start is None ==> v.start is None
            &&& forall|i: int|
                0 <= i < e.len() ==> {
                    &&& (#[trigger] e[i]).wf(v.chunk_size)
                    &&& e[i].range.span() <= v.chunk_size
                    &&& e[i].covers_its_pieces()
                    &&& v.joined_start(subs[0]) <= e[i].range.start
                    &&& e[i].range.end <= w.end
                }
        }),
    decreases n,
{
    if n == 0 {
    } else {
        lemma_emitted(v, subs, n - 1);
        lemma_merge_step(v, subs, n - 1);
        lemma_after_subs(v, subs, subs[0].range.start as int, subs.last().range.end as int, n - 1);
        let w = v.after_subs(subs.take(n - 1));
        let sub = subs[n - 1];
        assert(sub.range.wf());
        if w.overflows(sub) {
            lemma_chained_within(w.current(), v.chunk_size);
        }
        if n - 1 > 0 {
            assert(subs[0].range.wf());
            assert(subs[0].range.end <= subs[n - 1].range.start);
        }
        if v.start is Some {
            lemma_chained_ordered(v.subs, v.start->0 as int, v.end as int, v.chunk_size);
        }
    }
}

/// The chunks that a segment completes span no more than the chunk size, are
/// filled by their pieces, start no earlier than the chunk under construction
/// and end no later than the segment. Afterwards a chunk is under construction, which starts no earlier
/// either.
pub proof fn completed_chunks_are_filled(v: CutView, seg: VadSegment)
    requires
        v.inv(),
        v.chunk_size > 0,
        v.follows(seg),
    ensures
        ({
            let e = v.emitted_by_segment(seg);
            let first = match v.start {
                Some(start) => start,
                None => seg.start,
            };
            &&& forall|i: int|
                0 <= i < e.len() ==> {
                    &&& (#[trigger] e[i]).wf(v.chunk_size)
                    &&& e[i].range.span() <= v.chunk_size
                    &&& e[i].covers_its_pieces()
                    &&& first <= e[i].range.start
                    &&& e[i].range.end <= seg.end
                }
            &&& v.after_segment(seg).start matches Some(start) && first <= start
        }),
{
    let subs = v.pieces_of(seg);
    pieces_partition_the_segment(seg, v.chunk_size, v.next_vad_seq);
    lemma_emitted(v, subs, subs.len() as int);
    lemma_after_subs(v, subs, seg.start as int, seg.end as int, subs.len() as int);
    assert(subs.take(subs.len() as int) =~= subs);
}

/// A segment that ends within the chunk size of the start of the open chunk joins
/// it whole, whatever the pause before it, and completes nothing.
pub proof fn segments_that_fit_join_the_open_chunk(v: CutView, seg: VadSegment)
    requires
        v.inv(),
        v.follows(seg),
        v.start matches Some(start) && seg.end - start <= v.chunk_size,
        0 <= v.next_vad_seq <= u32::MAX,
    ensures
        v.emitted_by_segment(seg).len() == 0,
        v.after_segment(seg).start == v.start,
        v.after_segment(seg).end == seg.end,
        v.after_segment(seg).next_vad_seq == v.next_vad_seq + 1,
        ({
            let subs = v.after_segment(seg).subs;
            &&& subs.len() == v.subs.len() + 1
            &&& subs.drop_last() == v.subs
            &&& subs.last().range.start == seg.start
            &&& subs.last().range.end == seg.end
            &&& subs.last().origin matches SubOrigin::Vad { vad_seq } && vad_seq == v.next_vad_seq
        }),
{
    lemma_chained_ordered(v.subs, v.start->0 as int, v.end as int, v.chunk_size);
    lemma_one_piece(v, seg);
    assert(v.after_segment(seg).subs.drop_last() =~= v.subs);
}

/// A segment of at most the chunk size that does not fit completes the open
/// chunk as it is, and alone opens the next one.
pub proof fn segments_that_do_not_fit_open_the_next_chunk(v: CutView, seg: VadSegment)
    requires
        v.inv(),
        v.follows(seg),
        v.start matches Some(start) && seg.end - start > v.chunk_size,
        seg.end - seg.start <= v.chunk_size,
        0 <= v.next_vad_seq <= u32::MAX,
    ensures
        v.emitted_by_segment(seg).len() == 1,
        v.emitted_by_segment(seg)[0].range.start == v.start->0,
        v.emitted_by_segment(seg)[0].range.end == v.end,
        v.emitted_by_segment(seg)[0].subs == v.subs,
        v.after_segment(seg).start == Some(seg.start),
        v.after_segment(seg).end == seg.end,
        v.after_segment(seg).next_vad_seq == v.next_vad_seq + 1,
        ({
            let subs = v.after_segment(seg).subs;
            &&& subs.len() == 1
            &&& subs[0].range.start == seg.start
            &&& subs[0].range.end == seg.end
            &&& subs[0].origin matches SubOrigin::Vad { vad_seq } && vad_seq == v.next_vad_seq
        }),
{
    lemma_one_piece(v, seg);
}

proof fn lemma_one_piece(v: CutView, seg: VadSegment)
    requires
        seg.end - seg.start <= v.chunk_size,
    ensures
        v.pieces_of(seg).len() == 1,
        v.after_subs(v.pieces_of(seg)) == v.after_sub(v.pieces_of(seg)[0]),
        v.emitted_by_subs(v.pieces_of(seg)) == v.emitted_by_sub(v.pieces_of(seg)[0]),
{
    let subs = v.pieces_of(seg);
    let none = subs.drop_last();
    assert(none.len() == 0);
    assert(v.after_subs(none) == v);
    assert(v.emitted_by_subs(none) =~= Seq::<ChunkView>::empty());
    assert(v.emitted_by_subs(subs) =~= v.emitted_by_sub(subs[0]));
}

/// Between chunks, a segment of at most the chunk size alone opens the next one and
/// completes nothing.
pub proof fn the_first_speech_opens_a_chunk(v: CutView, seg: VadSegment)
    requires
        v.inv(),
        v.start is None,
        v.follows(seg),
        seg.end - seg.start <= v.chunk_size,
        0 <= v.next_vad_seq <= u32::MAX,
    ensures
        v.emitted_by_segment(seg).len() == 0,
        v.after_segment(seg).start == Some(seg.start),
        v.after_segment(seg).end == seg.end,
        v.after_segment(seg).next_vad_seq == v.next_vad_seq + 1,
        ({
            let subs = v.after_segment(seg).subs;
            &&& subs.len() == 1
            &&& subs[0].range.start == seg.start
            &&& subs[0].range.end == seg.end
            &&& subs[0].origin matches SubOrigin::Vad { vad_seq } && vad_seq == v.next_vad_seq
        }),
{
    lemma_one_piece(v, seg);
}

/// Whatever a piece is a part of, it joins the open chunk exactly if it ends within
/// the chunk size of its start; otherwise that chunk is completed as it is and the
/// piece alone opens the next one.
pub proof fn pieces_join_or_open_a_chunk(v: CutView, sub: SubRange)
    requires
        v.inv(),
    ensures
        v.start matches Some(start) ==> (sub.range.end - start <= v.chunk_size ==> {
            &&& v.emitted_by_sub(sub).len() == 0
            &&& v.after_sub(sub).start == Some(start)
            &&& v.after_sub(sub).subs == v.subs.push(sub)
        }),
        v.start matches Some(start) ==> (sub.range.end - start > v.chunk_size ==> {
            &&& v.emitted_by_sub(sub).len() == 1
            &&& v.emitted_by_sub(sub)[0].range.start == start
            &&& v.emitted_by_sub(sub)[0].range.end == v.end
            &&& v.emitted_by_sub(sub)[0].subs == v.subs
            &&& v.after_sub(sub).start == Some(sub.range.start)
            &&& v.after_sub(sub).subs == seq![sub]
        }),
        v.start is None ==> {
            &&& v.emitted_by_sub(sub).len() == 0
            &&& v.after_sub(sub).start == Some(sub.range.start)
            &&& v.after_sub(sub).subs == seq![sub]
        },
        v.after_sub(sub).end == sub.range.end,
        v.after_sub(sub).chunk_size == v.chunk_size,
        v.after_sub(sub).next_vad_seq == v.next_vad_seq,
{
    if v.start is None {
        assert(v.after_sub(sub).subs =~= seq![sub]);
    }
}

/// The end of the last segment is never completed by that segment itself: it
/// stays in the open chunk, which waits for what comes next.
pub proof fn the_last_speech_stays_open(v: CutView, seg: VadSegment)
    requires
        v.inv(),
        v.chunk_size > 0,
        v.follows(seg),
    ensures
        v.after_segment(seg).start is Some,
        v.after_segment(seg).end == seg.end,
        v.after_segment(seg).end - v.after_segment(seg).start->0 <= v.chunk_size,
        v.after_segment(seg).subs.len() > 0,
        v.after_segment(seg).subs.last().range.end == seg.end,
        v.after_segment(seg).chunk_size == v.chunk_size,
        v.after_segment(seg).next_vad_seq == v.next_vad_seq + 1,
{
    completed_chunks_are_filled(v, seg);
    let subs = v.pieces_of(seg);
    pieces_partition_the_segment(seg, v.chunk_size, v.next_vad_seq);
    lemma_after_subs(v, subs, seg.start as int, seg.end as int, subs.len() as int);
    assert(subs.take(subs.len() as int) =~= subs);
}

/// Flushing completes the open chunk as it is, if there is one, and leaves none
/// open. Where speech was and how segments are numbered is not forgotten.
pub proof fn flushing_completes_the_open_chunk(v: CutView)
    ensures
        v.start is Some ==> {
            &&& v.emitted_by_flush().len() == 1
            &&& v.emitted_by_flush()[0].range.start == v.start->0
            &&& v.emitted_by_flush()[0].range.end == v.end
            &&& v.emitted_by_flush()[0].subs == v.subs
        },
        v.start is None ==> v.emitted_by_flush().len() == 0,
        v.after_flush().start is None,
        v.after_flush().subs.len() == 0,
        v.after_flush().end == v.end,
        v.after_flush().next_vad_seq == v.next_vad_seq,
        v.after_flush().chunk_size == v.chunk_size,
{
}

/// The trailing chunk spans no more than the chunk size and is filled by its
/// pieces.
pub proof fn trailing_chunk_is_filled(v: CutView)
    requires
        v.inv(),
        v.start is Some,
    ensures
        v.current().wf(v.chunk_size),
        v.current().range.span() <= v.chunk_size,
        v.current().covers_its_pieces(),
{
    lemma_chained_within(v.current(), v.chunk_size);
}

} // verus!
