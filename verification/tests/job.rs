//! Alignment jobs.

use std::time::Duration;

use smol_str::SmolStr;
use whispery::align::job::{
    alignment_failure_is_recoverable, clip_sub_segments, conclude, resolve_lookup,
    run_audio_slice, telemetry_line, unsupported_language_pseudo_word, whole_chunk_plan,
    BoundsSourceCounters, RunDispatch, WholeChunkPlan,
};
use whispery::{
    AlignResultMsg, AlignmentFailureKind, AlignmentFallback, AlignmentLookup, AlignmentResult,
    AsrFailureKind, Binary32, BoundsSource, ChunkId, Lang, Run, TimeRange, Timebase, Word,
    WorkFailure, WorkerKind,
};

fn assert_send<T: Send>() {}

#[test]
fn align_result_msg_is_send() {
    assert_send::<AlignResultMsg>();
}

#[test]
fn data_dependent_failures_are_recoverable() {
    let recoverable = [
        AlignmentFailureKind::NoAlignmentPath,
        AlignmentFailureKind::EmptyText,
    ];
    for kind in recoverable {
        let f = WorkFailure::AlignmentFailed {
            kind,
            message: String::new(),
            language: Lang::En,
        };
        assert!(
            alignment_failure_is_recoverable(&f),
            "{kind:?} must preserve ASR text",
        );
    }
}

#[test]
fn backend_alignment_failures_stay_fatal() {
    let fatal = [
        AlignmentFailureKind::ModelInferenceFailed,
        AlignmentFailureKind::TokenizationFailed,
        AlignmentFailureKind::NormalizationFailed,
    ];
    for kind in fatal {
        let f = WorkFailure::AlignmentFailed {
            kind,
            message: String::new(),
            language: Lang::En,
        };
        assert!(
            !alignment_failure_is_recoverable(&f),
            "{kind:?} signals a backend/config bug; must propagate",
        );
    }
}

#[test]
fn liveness_and_registry_failures_stay_fatal() {

    assert!(!alignment_failure_is_recoverable(
        &WorkFailure::WorkerHangTimeout {
            kind: WorkerKind::Alignment,
            elapsed: Duration::from_secs(30),
        }
    ));
    assert!(!alignment_failure_is_recoverable(
        &WorkFailure::LanguageUnsupportedForAlignment { language: Lang::En }
    ));
    assert!(!alignment_failure_is_recoverable(&WorkFailure::AsrFailed {
        kind: AsrFailureKind::AllTemperaturesFailed,
        message: String::new(),
    }));
}

#[test]
fn bounds_source_counters_accumulate_distribution() {
    let mut c = BoundsSourceCounters::default();
    c.observe_bounds(BoundsSource::Dtw);
    c.observe_bounds(BoundsSource::Dtw);
    c.observe_bounds(BoundsSource::Segment);
    c.observe_bounds(BoundsSource::Wholeclip);
    c.observe_unaligned();
    c.observe_unaligned();
    assert_eq!(c.runs_total(), 4);
    assert_eq!(c.runs_dtw(), 2);
    assert_eq!(c.runs_segment(), 1);
    assert_eq!(c.runs_wholeclip(), 1);
    assert_eq!(c.runs_unaligned(), 2);
}

#[test]
fn bounds_source_counters_default_is_zero() {
    let c = BoundsSourceCounters::default();
    assert_eq!(c.runs_total(), 0);
    assert_eq!(c.runs_dtw(), 0);
    assert_eq!(c.runs_segment(), 0);
    assert_eq!(c.runs_wholeclip(), 0);
    assert_eq!(c.runs_unaligned(), 0);
}

#[test]
fn run_audio_slice_segment_bounds_clamp_to_chunk_length() {
    let r = Run::new(
        Lang::En,
        SmolStr::new("hi"),
        100,
        300,
        0,
        BoundsSource::Segment,
    );
    let (lo, hi) = run_audio_slice(&r, 16_000, 0);
    assert_eq!(lo, 1_600);
    assert_eq!(hi, 4_800);
}

#[test]
fn run_audio_slice_wholeclip_uses_full_chunk() {
    let r = Run::new(
        Lang::En,
        SmolStr::new("hi"),
        i64::MIN,
        i64::MAX,
        0,
        BoundsSource::Wholeclip,
    );
    let (lo, hi) = run_audio_slice(&r, 16_000, 0);
    assert_eq!(lo, 0);
    assert_eq!(hi, 16_000);
}

#[test]
fn run_audio_slice_inverted_bounds_fall_back_to_full_chunk() {
    let r = Run::new(
        Lang::En,
        SmolStr::new("hi"),
        500,
        100,
        0,
        BoundsSource::Segment,
    );
    let (lo, hi) = run_audio_slice(&r, 16_000, 0);
    assert_eq!(lo, 0);
    assert_eq!(hi, 16_000);
}

#[test]
fn clip_sub_segments_offsets_into_run_local_space() {
    let tb = Timebase::new(1, 16_000);
    let subs = vec![
        TimeRange::new(2_000, 3_000, tb),
        TimeRange::new(800, 2_400, tb),
        TimeRange::new(8_000, 9_000, tb),
    ];
    let out = clip_sub_segments(&subs, 1_600, 4_800);
    assert_eq!(out.len(), 2);
    assert_eq!(out[0].start_pts(), 400);
    assert_eq!(out[0].end_pts(), 1_400);
    assert_eq!(out[1].start_pts(), 0);
    assert_eq!(out[1].end_pts(), 800);
}

#[test]
fn unsupported_language_pseudo_word_carries_run_text_and_bounds() {
    let r = Run::new(
        Lang::Other(SmolStr::new("xx")),
        SmolStr::new("untranslated"),
        120,
        450,
        0,
        BoundsSource::Segment,
    );
    let w = unsupported_language_pseudo_word(&r);
    assert_eq!(w.text(), "untranslated");
    assert_eq!(w.range().start_pts(), 120);
    assert_eq!(w.range().end_pts(), 450);
    assert!((f32::from_bits(w.score().to_bits()) - 0.0).abs() < f32::EPSILON);
}

fn run(language: Lang, surface: &str, t0: i64, t1: i64, source: BoundsSource) -> Run {
    Run::new(language, SmolStr::new(surface), t0, t1, 0, source)
}

fn word(surface: &str) -> Word {
    let range = TimeRange::new(0, 10, Timebase::new(1, 1_000));
    Word::new(SmolStr::new(surface), range, Binary32::from_bits(0.25f32.to_bits()))
}

fn no_path() -> WorkFailure {
    WorkFailure::AlignmentFailed {
        kind: AlignmentFailureKind::NoAlignmentPath,
        message: String::from("too short"),
        language: Lang::En,
    }
}

fn broken_model() -> WorkFailure {
    WorkFailure::AlignmentFailed {
        kind: AlignmentFailureKind::ModelInferenceFailed,
        message: String::from("broken"),
        language: Lang::En,
    }
}

fn surfaces(result: &AlignmentResult) -> Vec<&str> {
    result.words().iter().map(|w| w.text()).collect()
}

#[test]
fn an_aligner_of_the_language_comes_first() {
    let skip = AlignmentFallback::SkipChunk;
    assert_eq!(resolve_lookup(true, true, skip), AlignmentLookup::Hit);
    assert_eq!(resolve_lookup(true, false, skip), AlignmentLookup::Hit);
    assert_eq!(resolve_lookup(false, true, skip), AlignmentLookup::AnyFallback);
    assert_eq!(
        resolve_lookup(false, false, AlignmentFallback::Error),
        AlignmentLookup::Miss { fallback: AlignmentFallback::Error }
    );
}

#[test]
fn bounds_past_the_end_fall_back_to_the_whole_chunk() {
    let late = run(Lang::En, "hi", 2_000, 3_000, BoundsSource::Dtw);
    assert_eq!(run_audio_slice(&late, 16_000, 0), (0, 16_000));
    let negative = run(Lang::En, "hi", -1, 3_000, BoundsSource::Segment);
    assert_eq!(run_audio_slice(&negative, 16_000, 0), (0, 16_000));
    let huge = run(Lang::En, "hi", 500, i64::MAX, BoundsSource::Segment);
    assert_eq!(run_audio_slice(&huge, 16_000, 0), (8_000, 16_000));
}

#[test]
fn telemetry_is_one_line() {
    let mut c = BoundsSourceCounters::default();
    c.observe_bounds(BoundsSource::Dtw);
    c.observe_bounds(BoundsSource::Segment);
    c.observe_bounds(BoundsSource::Segment);
    c.observe_unaligned();
    assert_eq!(
        telemetry_line(ChunkId::from_raw(120), &c),
        "script_dispatch chunk=120 runs=3 dtw=1 segment=2 wholeclip=0 unaligned=1"
    );
}

#[test]
fn negative_bounds_are_drawn_in() {
    let r = run(Lang::En, "x", -50, -20, BoundsSource::Segment);
    let w = unsupported_language_pseudo_word(&r);
    assert_eq!((w.range().start_pts(), w.range().end_pts()), (0, 0));
    assert_eq!((w.range().timebase().num(), w.range().timebase().den()), (1, 1_000));
}

#[test]
fn runs_are_aligned_in_order() {
    let runs = vec![
        run(Lang::En, "hello", 0, 100, BoundsSource::Segment),
        run(Lang::Zh, "zh", 100, 200, BoundsSource::Segment),
        run(Lang::Fr, "bonjour", 200, 300, BoundsSource::Dtw),
        run(Lang::En, "bye", 300, 400, BoundsSource::Segment),
    ];
    let lookups = vec![
        AlignmentLookup::Hit,
        AlignmentLookup::Miss { fallback: AlignmentFallback::SkipChunk },
        AlignmentLookup::AnyFallback,
        AlignmentLookup::Hit,
    ];
    let tb = Timebase::new(1, 16_000);
    let subs = vec![TimeRange::new(0, 2_000, tb), TimeRange::new(5_000, 6_400, tb)];
    let mut d = RunDispatch::new(runs, lookups, subs, 6_400, 1_000);

    let first = d.next_request().unwrap();
    assert_eq!(first.run, 0);
    assert_eq!((first.slice_lo, first.slice_hi), (0, 1_600));
    assert_eq!(first.first_sample_in_stream, 1_000);
    assert_eq!(first.sub_segments.len(), 1);
    assert_eq!(first.sub_segments[0].end_pts(), 1_600);
    d.record(Ok(AlignmentResult::new(vec![word("hel"), word("lo")])));

    let second = d.next_request().unwrap();
    assert_eq!(second.run, 2);
    assert_eq!((second.slice_lo, second.slice_hi), (3_200, 4_800));
    assert_eq!(second.first_sample_in_stream, 4_200);
    assert!(second.sub_segments.is_empty());
    d.record(Err(no_path()));

    let third = d.next_request().unwrap();
    assert_eq!(third.run, 3);
    assert_eq!(third.sub_segments.len(), 1);
    assert_eq!(third.sub_segments[0].start_pts(), 200);
    assert_eq!(third.sub_segments[0].end_pts(), 1_600);
    d.record(Ok(AlignmentResult::new(vec![word("bye")])));

    assert!(d.next_request().is_none());
    let c = d.counters();
    assert_eq!((c.runs_total(), c.runs_dtw(), c.runs_segment()), (4, 1, 3));
    assert_eq!((c.runs_wholeclip(), c.runs_unaligned()), (0, 1));
    let result = d.finish().unwrap();
    assert_eq!(surfaces(&result), vec!["hel", "lo", "zh", "bye"]);
    assert_eq!(result.words()[2].range().start_pts(), 100);
}

#[test]
fn a_run_that_took_the_whole_chunk_is_the_last() {
    let runs = vec![
        run(Lang::En, "a", i64::MIN, i64::MAX, BoundsSource::Wholeclip),
        run(Lang::En, "b", i64::MIN, i64::MAX, BoundsSource::Wholeclip),
        run(Lang::En, "c", 0, 100, BoundsSource::Segment),
    ];
    let lookups = vec![AlignmentLookup::Hit; 3];
    let mut d = RunDispatch::new(runs, lookups, vec![], 3_200, 0);
    assert_eq!(d.next_request().unwrap().run, 0);
    d.record(Err(no_path()));
    let request = d.next_request().unwrap();
    assert_eq!((request.run, request.slice_lo, request.slice_hi), (1, 0, 3_200));
    d.record(Ok(AlignmentResult::new(vec![word("b")])));
    assert!(d.next_request().is_none());
    assert_eq!(d.counters().runs_total(), 2);
    assert_eq!(surfaces(&d.finish().unwrap()), vec!["b"]);
}

#[test]
fn a_fatal_failure_ends_the_job() {
    let runs = vec![
        run(Lang::En, "a", 0, 100, BoundsSource::Segment),
        run(Lang::En, "b", 100, 200, BoundsSource::Segment),
    ];
    let mut d = RunDispatch::new(runs, vec![AlignmentLookup::Hit; 2], vec![], 3_200, 0);
    assert!(d.next_request().is_some());
    d.record(Err(broken_model()));
    assert!(d.next_request().is_none());
    assert_eq!(d.counters().runs_total(), 1);
    match d.finish() {
        Err(WorkFailure::AlignmentFailed { kind, message, .. }) => {
            assert_eq!(kind, AlignmentFailureKind::ModelInferenceFailed);
            assert_eq!(message, "broken");
        }
        other => panic!("unexpected {other:?}"),
    }
}

#[test]
fn a_refused_language_ends_the_job() {
    let runs = vec![run(Lang::Ja, "a", 0, 100, BoundsSource::Segment)];
    let lookups = vec![AlignmentLookup::Miss { fallback: AlignmentFallback::Error }];
    let mut d = RunDispatch::new(runs, lookups, vec![], 3_200, 0);
    assert!(d.next_request().is_none());
    match d.finish() {
        Err(WorkFailure::LanguageUnsupportedForAlignment { language }) => {
            assert!(language == Lang::Ja);
        }
        other => panic!("unexpected {other:?}"),
    }
}

#[test]
fn the_stream_position_of_a_run_saturates() {
    let runs = vec![run(Lang::En, "a", 100, 200, BoundsSource::Segment)];
    let mut d =
        RunDispatch::new(runs, vec![AlignmentLookup::Hit], vec![], 16_000, u64::MAX - 10);
    assert_eq!(d.next_request().unwrap().first_sample_in_stream, u64::MAX);
}

#[test]
fn chunks_without_runs_are_planned_by_the_registry() {
    assert!(matches!(
        whole_chunk_plan(AlignmentLookup::Hit, &Lang::En),
        WholeChunkPlan::Align
    ));
    assert!(matches!(
        whole_chunk_plan(AlignmentLookup::AnyFallback, &Lang::En),
        WholeChunkPlan::Align
    ));
    let skip = AlignmentLookup::Miss { fallback: AlignmentFallback::SkipChunk };
    match whole_chunk_plan(skip, &Lang::En) {
        WholeChunkPlan::Done(Ok(result)) => assert!(result.words().is_empty()),
        other => panic!("unexpected {other:?}"),
    }
    let error = AlignmentLookup::Miss { fallback: AlignmentFallback::Error };
    match whole_chunk_plan(error, &Lang::It) {
        WholeChunkPlan::Done(Err(WorkFailure::LanguageUnsupportedForAlignment { language })) => {
            assert!(language == Lang::It);
        }
        other => panic!("unexpected {other:?}"),
    }
}

#[test]
fn a_timeout_outweighs_any_outcome() {
    let elapsed = Duration::from_secs(31);
    let done = Ok(AlignmentResult::new(vec![word("late")]));
    match conclude(done, true, elapsed) {
        Err(WorkFailure::WorkerHangTimeout { kind, elapsed: spent }) => {
            assert_eq!(kind, WorkerKind::Alignment);
            assert_eq!(spent, elapsed);
        }
        other => panic!("unexpected {other:?}"),
    }
    let kept = conclude(Ok(AlignmentResult::new(vec![word("in time")])), false, elapsed);
    assert_eq!(surfaces(&kept.unwrap()), vec!["in time"]);
    assert!(conclude(Err(no_path()), false, elapsed).unwrap().words().is_empty());
    assert!(conclude(Err(broken_model()), false, elapsed).is_err());
}
