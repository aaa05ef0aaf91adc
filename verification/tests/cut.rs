//! Merging speech into chunks.

use whispery::machine::cut::{Cut, MergedChunk, SampleRange, SubOrigin};
use whispery::VadSegment;

fn bounds(chunk: &MergedChunk) -> (u64, u64) {
    (chunk.range.start, chunk.range.end)
}

fn pieces(chunk: &MergedChunk) -> Vec<(u64, u64)> {
    chunk.subs.iter().map(|s| (s.range.start, s.range.end)).collect()
}

#[test]
fn ranges_have_a_length() {
    assert_eq!(SampleRange::new(10, 25).len(), 15);
    assert_eq!(SampleRange::new(10, 10).len(), 0);
}

#[test]
fn segments_join_while_they_fit() {
    let mut cut = Cut::new(100);
    assert_eq!(cut.chunk_size_samples(), 100);
    assert_eq!(cut.high_water(), 0);
    assert!(cut.push_segment(VadSegment::new(10, 40)).is_empty());
    assert!(cut.push_segment(VadSegment::new(50, 110)).is_empty());
    assert_eq!(cut.high_water(), 110);
    let emitted = cut.push_segment(VadSegment::new(110, 111));
    assert_eq!(emitted.len(), 1);
    assert_eq!(bounds(&emitted[0]), (10, 110));
    assert_eq!(pieces(&emitted[0]), vec![(10, 40), (50, 110)]);
    assert_eq!(emitted[0].subs[0].origin, SubOrigin::Vad { vad_seq: 0 });
    assert_eq!(emitted[0].subs[1].origin, SubOrigin::Vad { vad_seq: 1 });
    let last = cut.flush().unwrap();
    assert_eq!(bounds(&last), (110, 111));
    assert_eq!(last.subs[0].origin, SubOrigin::Vad { vad_seq: 2 });
    assert!(cut.flush().is_none());
}

#[test]
fn long_segments_are_split() {
    let mut cut = Cut::new(100);
    assert!(cut.push_segment(VadSegment::new(0, 30)).is_empty());
    let emitted = cut.push_segment(VadSegment::new(40, 290));
    assert_eq!(emitted.len(), 3);
    assert_eq!(bounds(&emitted[0]), (0, 30));
    assert_eq!(bounds(&emitted[1]), (40, 140));
    assert_eq!(bounds(&emitted[2]), (140, 240));
    for (part, chunk) in emitted[1..].iter().enumerate() {
        assert_eq!(
            chunk.subs[0].origin,
            SubOrigin::HardSplit { vad_seq: 1, part: part as u8, total_parts: 3 }
        );
    }
    assert!(cut.push_segment(VadSegment::new(300, 340)).is_empty());
    let last = cut.flush().unwrap();
    assert_eq!(bounds(&last), (240, 340));
    assert_eq!(pieces(&last), vec![(240, 290), (300, 340)]);
    assert_eq!(
        last.subs[0].origin,
        SubOrigin::HardSplit { vad_seq: 1, part: 2, total_parts: 3 }
    );
}

#[test]
fn a_segment_of_chunk_size_is_not_split() {
    let mut cut = Cut::new(100);
    assert!(cut.push_segment(VadSegment::new(0, 100)).is_empty());
    let chunk = cut.flush().unwrap();
    assert_eq!(pieces(&chunk), vec![(0, 100)]);
    assert_eq!(chunk.subs[0].origin, SubOrigin::Vad { vad_seq: 0 });
}

#[test]
fn no_chunk_is_longer_than_the_chunk_size_and_no_speech_is_lost() {
    let mut cut = Cut::new(97);
    let mut chunks = Vec::new();
    let mut speech = 0;
    let mut at = 0;
    for i in 0..200u64 {
        let start = at + i % 7;
        let end = start + 1 + (i * 37) % 230;
        speech += end - start;
        at = end;
        chunks.append(&mut cut.push_segment(VadSegment::new(start, end)));
    }
    chunks.extend(cut.flush());
    let mut previous = 0;
    let mut kept = 0;
    for chunk in &chunks {
        assert!(chunk.range.len() <= 97);
        assert!(chunk.range.start >= previous);
        previous = chunk.range.end;
        assert_eq!(chunk.subs[0].range.start, chunk.range.start);
        assert_eq!(chunk.subs[chunk.subs.len() - 1].range.end, chunk.range.end);
        kept += chunk.subs.iter().map(|s| s.range.len()).sum::<u64>();
    }
    assert_eq!(kept, speech);
    assert_eq!(previous, at);
}

#[test]
fn an_empty_segment_does_not_stretch_a_chunk() {
    let mut cut = Cut::new(100);
    assert!(cut.push_segment(VadSegment::new(0, 0)).is_empty());
    let emitted = cut.push_segment(VadSegment::new(200, 300));
    assert_eq!(emitted.len(), 1);
    assert_eq!(bounds(&emitted[0]), (0, 0));
    assert_eq!(pieces(&emitted[0]), vec![(0, 0)]);
    let last = cut.flush().unwrap();
    assert_eq!(bounds(&last), (200, 300));
    assert_eq!(last.clone().subs, last.subs);
}

#[test]
fn an_empty_segment_joins_what_fits() {
    let mut cut = Cut::new(100);
    assert!(cut.push_segment(VadSegment::new(5, 5)).is_empty());
    assert!(cut.push_segment(VadSegment::new(5, 105)).is_empty());
    assert_eq!(cut.push_segment(VadSegment::new(105, 105)).len(), 0);
    let chunk = cut.flush().unwrap();
    assert_eq!(bounds(&chunk), (5, 105));
    assert_eq!(pieces(&chunk), vec![(5, 5), (5, 105), (105, 105)]);
}
