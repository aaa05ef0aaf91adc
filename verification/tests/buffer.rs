//! The buffer of live audio.

use whispery::machine::buffer::{default_buffer, SampleBuffer};
use whispery::machine::cut::SampleRange;
use whispery::{Binary32, PushKind, Timebase, Timestamp, TranscriberError};

fn audio(value: f32, n: usize) -> Vec<Binary32> {
    vec![Binary32::from_bits(value.to_bits()); n]
}

fn tb_48k() -> Timebase {
    Timebase::new(1, 48_000)
}

fn ts_at_48k(pts: i64) -> Timestamp {
    Timestamp::new(pts, tb_48k())
}

#[test]
fn first_push_records_anchor_and_timebase() {
    let mut b = SampleBuffer::new(1_000_000, 3200);
    b.append(ts_at_48k(48_000), &audio(0.0, 100)).unwrap();
    assert_eq!(b.output_timebase(), Some(tb_48k()));
    assert_eq!(b.absolute_sample_offset(), 100);
    assert_eq!(b.next_expected_starts_at().unwrap().pts(), 48_300);
}

#[test]
fn contiguous_push_succeeds() {
    let mut b = SampleBuffer::new(1_000_000, 3200);
    b.append(ts_at_48k(0), &audio(0.0, 1000)).unwrap();
    let next = b.next_expected_starts_at().unwrap();
    b.append(next, &audio(0.0, 500)).unwrap();
    assert_eq!(b.absolute_sample_offset(), 1500);
}

#[test]
fn pts_regression_returns_error() {
    let mut b = SampleBuffer::new(1_000_000, 3200);
    b.append(ts_at_48k(48_000), &audio(0.0, 100)).unwrap();
    let result = b.append(ts_at_48k(47_000), &audio(0.0, 100));
    assert!(matches!(
        result,
        Err(TranscriberError::PtsRegression { kind: PushKind::Samples, .. })
    ));
}

#[test]
fn forward_gap_within_tolerance_zero_fills() {
    let mut b = SampleBuffer::new(1_000_000, 3200);
    b.append(ts_at_48k(0), &audio(1.0, 100)).unwrap();
    b.append(ts_at_48k(600), &audio(2.0, 100)).unwrap();
    assert_eq!(b.absolute_sample_offset(), 300);
}

#[test]
fn forward_gap_above_tolerance_errors() {
    let mut b = SampleBuffer::new(1_000_000, 100);
    b.append(ts_at_48k(0), &audio(0.0, 100)).unwrap();
    let r = b.append(ts_at_48k(1300), &audio(0.0, 100));
    assert!(matches!(r, Err(TranscriberError::GapExceedsTolerance { .. })));
}

#[test]
fn backpressure_at_cap() {
    let mut b = SampleBuffer::new(150, 3200);
    let r = b.append(ts_at_48k(0), &audio(0.0, 200));
    assert!(matches!(r, Err(TranscriberError::Backpressure { buffered, cap }) if buffered == 200 && cap == 150));
}

#[test]
fn inconsistent_timebase_errors() {
    let mut b = SampleBuffer::new(1_000_000, 3200);
    b.append(ts_at_48k(0), &audio(0.0, 100)).unwrap();
    let other_tb = Timebase::new(1, 1000);
    let r = b.append(Timestamp::new(0, other_tb), &audio(0.0, 100));
    assert!(matches!(r, Err(TranscriberError::InconsistentTimebase { .. })));
}

fn as_floats(samples: &[Binary32]) -> Vec<f32> {
    samples.iter().map(|s| f32::from_bits(s.to_bits())).collect()
}

#[test]
fn refusals_name_the_offence_and_change_nothing() {
    let mut b = SampleBuffer::new(1_000_000, 3_200);
    b.append(ts_at_48k(48_000), &audio(1.0, 100)).unwrap();
    match b.append(ts_at_48k(47_000), &audio(0.0, 100)) {
        Err(TranscriberError::PtsRegression { kind, advance }) => {
            assert_eq!(kind, PushKind::Samples);
            assert_eq!(advance, -1_300);
        }
        other => panic!("unexpected {other:?}"),
    }
    match b.append(ts_at_48k(48_300 + 3 * 3_201), &audio(0.0, 100)) {
        Err(TranscriberError::GapExceedsTolerance { gap_samples, tolerance_samples }) => {
            assert_eq!(gap_samples, 3_201);
            assert_eq!(tolerance_samples, 3_200);
        }
        other => panic!("unexpected {other:?}"),
    }
    match b.append(Timestamp::new(0, Timebase::new(1, 1_000)), &audio(0.0, 100)) {
        Err(TranscriberError::InconsistentTimebase { expected, got }) => {
            assert_eq!((expected.num(), expected.den()), (1, 48_000));
            assert_eq!((got.num(), got.den()), (1, 1_000));
        }
        other => panic!("unexpected {other:?}"),
    }
    assert_eq!(b.absolute_sample_offset(), 100);
    assert_eq!(b.buffered_samples(), 100);
    assert_eq!(b.next_expected_starts_at().unwrap().pts(), 48_300);
}

#[test]
fn backpressure_keeps_the_packet() {
    let mut b = SampleBuffer::new(150, 3_200);
    b.append(ts_at_48k(0), &audio(1.0, 150)).unwrap();
    assert!(b.append(ts_at_48k(450), &audio(2.0, 1)).is_err());
    assert_eq!(b.buffered_samples(), 151);
    assert_eq!(as_floats(&b.extract(SampleRange::new(149, 151))), vec![1.0, 2.0]);
}

#[test]
fn gaps_are_filled_with_silence() {
    let mut b = SampleBuffer::new(1_000_000, 3_200);
    b.append(ts_at_48k(0), &audio(1.0, 2)).unwrap();
    b.append(ts_at_48k(15), &audio(2.0, 2)).unwrap();
    assert_eq!(
        as_floats(&b.extract(SampleRange::new(0, 7))),
        vec![1.0, 1.0, 0.0, 0.0, 0.0, 2.0, 2.0]
    );
}

#[test]
fn an_equal_ratio_is_the_same_timebase() {
    let mut b = SampleBuffer::new(1_000_000, 3_200);
    b.append(ts_at_48k(0), &audio(0.0, 100)).unwrap();
    b.append(Timestamp::new(300, Timebase::new(2, 96_000)), &audio(0.0, 100)).unwrap();
    assert_eq!(b.absolute_sample_offset(), 200);
}

#[test]
fn odd_timebases_do_not_drift() {
    let tb = Timebase::new(1, 44_100);
    let mut b = SampleBuffer::new(10_000_000, 0);
    let mut at = Timestamp::new(7, tb);
    for _ in 0..1_000 {
        b.append(at, &audio(0.0, 333)).unwrap();
        at = b.next_expected_starts_at().unwrap();
    }
    assert_eq!(b.absolute_sample_offset(), 333_000);
    assert_eq!(at.pts(), 7 + 333_000 * 441 / 160);
}

#[test]
fn trimming_keeps_what_is_left() {
    let mut b = SampleBuffer::new(1_000_000, 3_200);
    b.append(ts_at_48k(0), &audio(1.0, 10)).unwrap();
    b.append(ts_at_48k(30), &audio(2.0, 10)).unwrap();
    b.trim_to(8);
    assert_eq!(b.buffered_samples(), 12);
    assert_eq!(b.absolute_sample_offset(), 20);
    assert_eq!(as_floats(&b.extract(SampleRange::new(9, 11))), vec![1.0, 2.0]);
    b.trim_to(3);
    assert_eq!(b.buffered_samples(), 12);
    b.trim_to(20);
    assert_eq!(b.buffered_samples(), 0);
    assert_eq!(b.next_expected_starts_at().unwrap().pts(), 60);
}

#[test]
fn sample_positions_map_to_output_timestamps() {
    let mut b = SampleBuffer::new(1_000_000, 3_200);
    b.append(ts_at_48k(1_000), &audio(0.0, 100)).unwrap();
    let r = b.samples_to_output_range(SampleRange::new(10, 20));
    assert_eq!((r.start_pts(), r.end_pts()), (1_030, 1_060));
    assert_eq!(r.timebase(), tb_48k());
}

#[test]
fn the_default_buffer_holds_a_minute() {
    let mut b = default_buffer();
    assert!(b.output_timebase().is_none());
    assert!(b.next_expected_starts_at().is_none());
    b.append(ts_at_48k(0), &audio(0.0, 960_000)).unwrap();
    match b.append(ts_at_48k(2_880_000 + 9_600), &audio(0.0, 0)) {
        Err(TranscriberError::Backpressure { buffered, cap }) => {
            assert_eq!(buffered, 963_200);
            assert_eq!(cap, 960_000);
        }
        other => panic!("unexpected {other:?}"),
    }
}
