//! The state machine.

use std::collections::VecDeque;
use std::sync::Arc;
use std::time::Duration;

use smol_str::SmolStr;

use whispery::machine::language::most_frequent_language;
use whispery::{
    AlignmentFailureKind, AlignmentResult, AsrFailureKind, AsrResult, Binary32, ChunkId, Command,
    Event, Lang, LanguagePolicy, PushKind, TimeRange, Timebase, Timestamp, Transcriber,
    TranscriberConfig, TranscriberError, VadSegment, Word, WorkFailure, WorkerKind,
};

fn float(value: f32) -> Binary32 {
    Binary32::from_bits(value.to_bits())
}

fn tb_48k() -> Timebase {
    Timebase::new(1, 48_000)
}

fn silence(n: usize) -> Vec<Binary32> {
    vec![float(0.0); n]
}

fn machine(chunk: u64, max_in_flight: usize, word_alignment: bool) -> Transcriber {
    Transcriber::new(TranscriberConfig {
        chunk_size_samples: chunk,
        max_in_flight,
        word_alignment,
        ..TranscriberConfig::default()
    })
}

fn asr(surface: &str) -> AsrResult {
    AsrResult {
        text: SmolStr::new(surface),
        language: Lang::En,
        avg_logprob: float(-0.5),
        no_speech_prob: float(0.125),
        temperature: float(0.0),
    }
}

fn asr_failure() -> WorkFailure {
    WorkFailure::AsrFailed {
        kind: AsrFailureKind::BackendError,
        message: String::from("backend"),
    }
}

fn chunk_of(command: &Command) -> u64 {
    match command {
        Command::RunAsr { chunk_id, .. } => chunk_id.as_u64(),
        Command::RunAlignment { chunk_id, .. } => chunk_id.as_u64(),
    }
}

fn chunk_told(event: &Event) -> u64 {
    match event {
        Event::Transcript(t) => t.chunk_id().as_u64(),
        Event::Error { chunk_id, .. } => chunk_id.as_u64(),
    }
}

#[test]
fn transcriber_defaults() {
    let config = TranscriberConfig::default();
    assert_eq!(config.chunk_size_samples, 480_000);
    assert_eq!(config.buffer_cap_samples, 960_000);
    assert_eq!(config.gap_tolerance_samples, 3_200);
    assert!(!config.word_alignment);
    assert_eq!(config.max_in_flight, 6);
    assert!(matches!(config.language_policy, LanguagePolicy::AutoLockAfter(1)));
    let copy = config.clone();
    assert_eq!(copy.chunk_size_samples, 480_000);
    assert_eq!(copy.max_in_flight, 6);
}

#[test]
fn nothing_to_do_at_first() {
    let mut t = Transcriber::new(TranscriberConfig::default());
    assert!(t.is_idle());
    assert!(t.poll_command().is_none());
    assert!(t.poll_event().is_none());
    assert_eq!(t.buffered_samples(), 0);
    assert!(t.output_timebase().is_none());
    assert!(t.next_expected_starts_at().is_none());
    assert!(t.would_accept(960_000, 3));
    assert!(!t.would_accept(960_001, 3));
}

#[test]
fn speech_becomes_a_transcript() {
    let mut t = machine(1_000, 2, false);
    let mut audio = silence(500);
    audio.extend(vec![float(0.5); 500]);
    t.push_samples(Timestamp::new(48_000, tb_48k()), &audio).unwrap();
    assert_eq!(t.next_expected_starts_at().unwrap().pts(), 51_000);
    assert_eq!(t.output_timebase(), Some(tb_48k()));
    t.push_vad_segment(VadSegment::new(100, 300)).unwrap();
    t.push_vad_segment(VadSegment::new(400, 900)).unwrap();
    assert!(t.poll_command().is_none());
    t.signal_eof().unwrap();
    assert!(!t.is_idle());
    match t.poll_command().unwrap() {
        Command::RunAsr { chunk_id, samples, sample_rate, params } => {
            assert_eq!(chunk_id.as_u64(), 0);
            assert_eq!(samples.len(), 800);
            assert_eq!(f32::from_bits(samples[399].to_bits()), 0.0);
            assert_eq!(f32::from_bits(samples[400].to_bits()), 0.5);
            assert_eq!(sample_rate, 16_000);
            assert_eq!(params.max_attempts, 6);
            assert_eq!(Arc::strong_count(&samples), 2);
        }
        other => panic!("unexpected {other:?}"),
    }
    assert!(t.poll_command().is_none());
    t.inject_asr_result(ChunkId::from_raw(0), asr("hello")).unwrap();
    assert_eq!(t.buffered_samples(), 0);
    match t.poll_event().unwrap() {
        Event::Transcript(transcript) => {
            assert_eq!(transcript.text(), "hello");
            assert!(*transcript.language() == Lang::En);
            assert_eq!(transcript.range().start_pts(), 48_300);
            assert_eq!(transcript.range().end_pts(), 50_700);
            assert_eq!(transcript.range().timebase(), tb_48k());
            assert!(transcript.words().is_empty());
            assert_eq!(transcript.vad_segments().len(), 2);
            assert_eq!(transcript.vad_segments()[1].start_pts(), 49_200);
            assert_eq!(f32::from_bits(transcript.avg_logprob().to_bits()), -0.5);
            assert_eq!(f32::from_bits(transcript.no_speech_prob().to_bits()), 0.125);
            assert_eq!(f32::from_bits(transcript.temperature().to_bits()), 0.0);
        }
        other => panic!("unexpected {other:?}"),
    }
    assert!(t.is_idle());
}

#[test]
fn recognised_text_is_aligned_on_request() {
    let mut t = machine(1_000, 2, true);
    t.push_samples(Timestamp::new(0, tb_48k()), &silence(2_000)).unwrap();
    t.push_vad_segment(VadSegment::new(0, 600)).unwrap();
    t.push_vad_segment(VadSegment::new(700, 1_500)).unwrap();
    t.signal_eof().unwrap();
    assert_eq!(chunk_of(&t.poll_command().unwrap()), 0);
    assert_eq!(chunk_of(&t.poll_command().unwrap()), 1);
    t.inject_asr_result(ChunkId::from_raw(0), asr("two words")).unwrap();
    assert!(t.poll_event().is_none());
    match t.poll_command().unwrap() {
        Command::RunAlignment { chunk_id, samples, sub_segments, text, language } => {
            assert_eq!(chunk_id.as_u64(), 0);
            assert_eq!(samples.len(), 600);
            assert_eq!(sub_segments.len(), 1);
            assert_eq!((sub_segments[0].start_pts(), sub_segments[0].end_pts()), (0, 1_800));
            assert_eq!(text.as_str(), "two words");
            assert!(language == Lang::En);
        }
        other => panic!("unexpected {other:?}"),
    }
    let range = TimeRange::new(0, 900, tb_48k());
    let word = Word::new(SmolStr::new("two"), range, float(0.75));
    t.inject_alignment_result(ChunkId::from_raw(0), AlignmentResult::new(vec![word])).unwrap();
    match t.poll_event().unwrap() {
        Event::Transcript(transcript) => {
            assert_eq!(transcript.text(), "two words");
            assert_eq!(transcript.words().len(), 1);
            assert_eq!(transcript.words()[0].text(), "two");
            assert_eq!(f32::from_bits(transcript.words()[0].score().to_bits()), 0.75);
        }
        other => panic!("unexpected {other:?}"),
    }
    t.inject_asr_result(ChunkId::from_raw(1), asr("")).unwrap();
    assert!(t.poll_command().is_none());
    match t.poll_event().unwrap() {
        Event::Transcript(transcript) => {
            assert_eq!(transcript.text(), "");
            assert!(transcript.words().is_empty());
        }
        other => panic!("unexpected {other:?}"),
    }
    assert!(t.is_idle());
}

#[test]
fn outcomes_are_told_in_chunk_order() {
    let mut t = machine(100, 3, false);
    t.push_samples(Timestamp::new(0, tb_48k()), &silence(300)).unwrap();
    for i in 0..3 {
        t.push_vad_segment(VadSegment::new(i * 100, (i + 1) * 100)).unwrap();
    }
    t.signal_eof().unwrap();
    t.inject_asr_result(ChunkId::from_raw(2), asr("third")).unwrap();
    assert!(t.poll_event().is_none());
    t.inject_failure(ChunkId::from_raw(1), asr_failure()).unwrap();
    assert!(t.poll_event().is_none());
    t.inject_asr_result(ChunkId::from_raw(0), asr("first")).unwrap();
    assert!(matches!(t.poll_event(), Some(Event::Transcript(x)) if x.text() == "first"));
    match t.poll_event().unwrap() {
        Event::Error { chunk_id, error: WorkFailure::AsrFailed { kind, message } } => {
            assert_eq!(chunk_id.as_u64(), 1);
            assert_eq!(kind, AsrFailureKind::BackendError);
            assert_eq!(message, "backend");
        }
        other => panic!("unexpected {other:?}"),
    }
    assert!(matches!(t.poll_event(), Some(Event::Transcript(x)) if x.text() == "third"));
    assert!(t.poll_event().is_none());
    assert_eq!(t.poll_command().map(|c| chunk_of(&c)), Some(0));
}

#[test]
fn slots_are_refilled_in_order() {
    let mut t = machine(100, 2, false);
    t.push_samples(Timestamp::new(0, tb_48k()), &silence(500)).unwrap();
    for i in 0..5 {
        t.push_vad_segment(VadSegment::new(i * 100, (i + 1) * 100)).unwrap();
    }
    t.signal_eof().unwrap();
    assert_eq!(t.poll_command().map(|c| chunk_of(&c)), Some(0));
    assert_eq!(t.poll_command().map(|c| chunk_of(&c)), Some(1));
    assert!(t.poll_command().is_none());
    t.inject_asr_result(ChunkId::from_raw(1), asr("b")).unwrap();
    assert!(t.poll_command().is_none());
    assert_eq!(t.buffered_samples(), 300);
    t.inject_asr_result(ChunkId::from_raw(0), asr("a")).unwrap();
    assert_eq!(t.poll_command().map(|c| chunk_of(&c)), Some(2));
    assert_eq!(t.poll_command().map(|c| chunk_of(&c)), Some(3));
    assert!(t.poll_command().is_none());
    t.inject_asr_result(ChunkId::from_raw(2), asr("c")).unwrap();
    assert_eq!(t.buffered_samples(), 100);
    assert_eq!(t.poll_command().map(|c| chunk_of(&c)), Some(4));
}

#[test]
fn a_command_that_was_handed_back_comes_first() {
    let mut t = machine(100, 3, false);
    t.push_samples(Timestamp::new(0, tb_48k()), &silence(300)).unwrap();
    for i in 0..3 {
        t.push_vad_segment(VadSegment::new(i * 100, (i + 1) * 100)).unwrap();
    }
    t.signal_eof().unwrap();
    let first = t.poll_command().unwrap();
    t.unpoll_command(first);
    assert_eq!(t.poll_command().map(|c| chunk_of(&c)), Some(0));
    assert_eq!(t.poll_command().map(|c| chunk_of(&c)), Some(1));
}

#[test]
fn results_for_other_chunks_are_refused() {
    let mut t = machine(100, 3, true);
    t.push_samples(Timestamp::new(0, tb_48k()), &silence(100)).unwrap();
    t.push_vad_segment(VadSegment::new(0, 100)).unwrap();
    t.signal_eof().unwrap();
    let unknown = ChunkId::from_raw(7);
    assert!(matches!(
        t.inject_asr_result(unknown, asr("x")),
        Err(TranscriberError::UnknownChunk(id)) if id == unknown
    ));
    assert!(matches!(
        t.inject_failure(unknown, asr_failure()),
        Err(TranscriberError::UnknownChunk(id)) if id == unknown
    ));
    let early = ChunkId::from_raw(0);
    assert!(matches!(
        t.inject_alignment_result(early, AlignmentResult::new(vec![])),
        Err(TranscriberError::UnknownChunk(id)) if id == early
    ));
    let timeout = WorkFailure::WorkerHangTimeout {
        kind: WorkerKind::Asr,
        elapsed: Duration::from_secs(60),
    };
    t.inject_failure(early, timeout).unwrap();
    assert!(matches!(
        t.poll_event(),
        Some(Event::Error { error: WorkFailure::WorkerHangTimeout { .. }, .. })
    ));
    assert!(t.inject_failure(early, asr_failure()).is_err());
}

#[test]
fn a_failed_alignment_is_told() {
    let mut t = machine(100, 3, true);
    t.push_samples(Timestamp::new(0, tb_48k()), &silence(100)).unwrap();
    t.push_vad_segment(VadSegment::new(0, 100)).unwrap();
    t.signal_eof().unwrap();
    t.inject_asr_result(ChunkId::from_raw(0), asr("x")).unwrap();
    let failure = WorkFailure::AlignmentFailed {
        kind: AlignmentFailureKind::TokenizationFailed,
        message: String::from("no token"),
        language: Lang::En,
    };
    t.inject_failure(ChunkId::from_raw(0), failure).unwrap();
    assert!(matches!(
        t.poll_event(),
        Some(Event::Error {
            error: WorkFailure::AlignmentFailed {
                kind: AlignmentFailureKind::TokenizationFailed,
                ..
            },
            ..
        })
    ));
}

#[test]
fn nothing_comes_after_the_end() {
    let mut t = machine(100, 3, false);
    t.push_samples(Timestamp::new(0, tb_48k()), &silence(100)).unwrap();
    t.signal_eof().unwrap();
    assert!(matches!(
        t.push_samples(Timestamp::new(300, tb_48k()), &silence(1)),
        Err(TranscriberError::AfterEof)
    ));
    assert!(matches!(
        t.push_vad_segment(VadSegment::new(0, 10)),
        Err(TranscriberError::AfterEof)
    ));
    assert!(matches!(t.signal_eof(), Err(TranscriberError::AfterEof)));
    assert_eq!(t.buffered_samples(), 100);
}

#[test]
fn speech_must_not_go_back() {
    let mut t = machine(1_000, 3, false);
    t.push_samples(Timestamp::new(0, tb_48k()), &silence(1_000)).unwrap();
    t.push_vad_segment(VadSegment::new(100, 900)).unwrap();
    match t.push_vad_segment(VadSegment::new(50, 90)) {
        Err(TranscriberError::PtsRegression { kind, advance }) => {
            assert_eq!(kind, PushKind::VadSegment);
            assert_eq!(advance, -850);
        }
        other => panic!("unexpected {other:?}"),
    }
    t.push_vad_segment(VadSegment::new(900, 1_000)).unwrap();
}

#[test]
fn live_samples_are_named_by_stream_position() {
    let mut t = machine(100, 1, false);
    t.push_samples(Timestamp::new(0, tb_48k()), &silence(250)).unwrap();
    t.push_vad_segment(VadSegment::new(0, 100)).unwrap();
    t.push_vad_segment(VadSegment::new(100, 200)).unwrap();
    t.push_vad_segment(VadSegment::new(200, 250)).unwrap();
    assert_eq!((t.live_range().start, t.live_range().end), (0, 250));
    t.inject_asr_result(ChunkId::from_raw(0), asr("a")).unwrap();
    assert_eq!((t.live_range().start, t.live_range().end), (100, 250));
}

#[test]
fn every_chunk_is_told_exactly_once_under_saturation() {
    let mut t = machine(32_000, 1, false);
    t.push_samples(Timestamp::new(0, tb_48k()), &silence(384_000)).unwrap();
    for i in 0..12 {
        t.push_vad_segment(VadSegment::new(i * 32_000, (i + 1) * 32_000)).unwrap();
    }
    t.signal_eof().unwrap();
    let mut queue: VecDeque<u64> = VecDeque::new();
    let mut told = Vec::new();
    while !t.is_idle() {
        while let Some(command) = t.poll_command() {
            if queue.is_empty() {
                queue.push_back(chunk_of(&command));
            } else {
                t.unpoll_command(command);
                break;
            }
        }
        let chunk = queue.pop_front().unwrap();
        if chunk % 5 == 3 {
            t.inject_failure(ChunkId::from_raw(chunk), asr_failure()).unwrap();
        } else {
            t.inject_asr_result(ChunkId::from_raw(chunk), asr("")).unwrap();
        }
        while let Some(event) = t.poll_event() {
            told.push(chunk_told(&event));
        }
    }
    assert_eq!(told, (0..12u64).collect::<Vec<_>>());
}

#[test]
fn speech_may_be_announced_before_its_audio() {
    let mut t = machine(100, 3, false);
    t.push_vad_segment(VadSegment::new(20, 80)).unwrap();
    t.push_samples(Timestamp::new(0, tb_48k()), &silence(90)).unwrap();
    t.push_vad_segment(VadSegment::new(110, 180)).unwrap();
    assert_eq!(t.poll_command().map(|c| chunk_of(&c)), Some(0));
    t.push_samples(Timestamp::new(270, tb_48k()), &silence(110)).unwrap();
    t.signal_eof().unwrap();
    match t.poll_command().unwrap() {
        Command::RunAsr { chunk_id, samples, .. } => {
            assert_eq!(chunk_id.as_u64(), 1);
            assert_eq!(samples.len(), 70);
        }
        other => panic!("unexpected {other:?}"),
    }
}

#[test]
fn would_accept_predicts_contiguous_pushes() {
    let mut t = Transcriber::new(TranscriberConfig {
        buffer_cap_samples: 100,
        ..TranscriberConfig::default()
    });
    t.push_samples(Timestamp::new(0, tb_48k()), &silence(60)).unwrap();
    assert!(t.would_accept(40, 0));
    assert!(!t.would_accept(41, 0));
    t.push_samples(Timestamp::new(180, tb_48k()), &silence(40)).unwrap();
    assert!(!t.would_accept(1, 0));
    assert!(matches!(
        t.push_samples(Timestamp::new(300, tb_48k()), &silence(1)),
        Err(TranscriberError::Backpressure { buffered: 101, cap: 100 })
    ));
}

#[test]
fn results_may_come_before_the_stream_ends() {
    let mut t = machine(100, 3, false);
    assert!(t.open_range().is_none());
    t.push_samples(Timestamp::new(0, tb_48k()), &silence(150)).unwrap();
    t.push_samples(Timestamp::new(450, tb_48k()), &vec![float(0.5); 50]).unwrap();
    t.push_vad_segment(VadSegment::new(0, 100)).unwrap();
    t.push_vad_segment(VadSegment::new(100, 200)).unwrap();
    assert_eq!(t.poll_command().map(|c| chunk_of(&c)), Some(0));
    let open = t.open_range().unwrap();
    assert_eq!((open.start, open.end), (100, 200));
    t.inject_asr_result(ChunkId::from_raw(0), asr("a")).unwrap();
    assert_eq!((t.live_range().start, t.live_range().end), (100, 200));
    t.signal_eof().unwrap();
    assert!(t.open_range().is_none());
    assert_eq!(t.chunks_cut(), 2);
    match t.poll_command().unwrap() {
        Command::RunAsr { chunk_id, samples, .. } => {
            assert_eq!(chunk_id.as_u64(), 1);
            assert_eq!(samples.len(), 100);
            assert_eq!(f32::from_bits(samples[49].to_bits()), 0.0);
            assert_eq!(f32::from_bits(samples[50].to_bits()), 0.5);
        }
        other => panic!("unexpected {other:?}"),
    }
    t.inject_asr_result(ChunkId::from_raw(1), asr("b")).unwrap();
    while t.poll_event().is_some() {}
    assert!(t.is_idle());
}

#[test]
fn a_long_stream_is_transcribed_as_it_comes() {
    let mut t = Transcriber::new(TranscriberConfig {
        chunk_size_samples: 100,
        max_in_flight: 2,
        buffer_cap_samples: 400,
        ..TranscriberConfig::default()
    });
    let mut told = Vec::new();
    for i in 0..50u64 {
        t.push_samples(Timestamp::new(i as i64 * 300, tb_48k()), &silence(100)).unwrap();
        t.push_vad_segment(VadSegment::new(i * 100 + 10, i * 100 + 95)).unwrap();
        while let Some(command) = t.poll_command() {
            t.inject_asr_result(ChunkId::from_raw(chunk_of(&command)), asr("x")).unwrap();
        }
        while let Some(event) = t.poll_event() {
            told.push(chunk_told(&event));
        }
    }
    t.signal_eof().unwrap();
    while let Some(command) = t.poll_command() {
        t.inject_asr_result(ChunkId::from_raw(chunk_of(&command)), asr("x")).unwrap();
    }
    while let Some(event) = t.poll_event() {
        told.push(chunk_told(&event));
    }
    assert_eq!(told, (0..50u64).collect::<Vec<_>>());
    assert!(t.is_idle());
}

fn hint_of(command: &Command) -> Option<Lang> {
    match command {
        Command::RunAsr { params, .. } => params.language_hint.clone(),
        other => panic!("unexpected {other:?}"),
    }
}

fn in_language(surface: &str, language: Lang) -> AsrResult {
    AsrResult { language, ..asr(surface) }
}

fn policed(language_policy: LanguagePolicy, chunks: u64) -> Transcriber {
    let mut t = Transcriber::new(TranscriberConfig {
        chunk_size_samples: 100,
        max_in_flight: 1,
        language_policy,
        ..TranscriberConfig::default()
    });
    t.push_samples(Timestamp::new(0, tb_48k()), &silence(chunks as usize * 100)).unwrap();
    for i in 0..chunks {
        t.push_vad_segment(VadSegment::new(i * 100, (i + 1) * 100)).unwrap();
    }
    t.signal_eof().unwrap();
    t
}

#[test]
fn a_locked_language_is_the_hint_of_every_chunk() {
    let mut t = policed(LanguagePolicy::Lock { hint: Lang::Fr }, 2);
    assert!(hint_of(&t.poll_command().unwrap()) == Some(Lang::Fr));
    t.inject_asr_result(ChunkId::from_raw(0), in_language("a", Lang::De)).unwrap();
    assert!(hint_of(&t.poll_command().unwrap()) == Some(Lang::Fr));
}

#[test]
fn automatic_detection_gives_no_hint() {
    let mut t = policed(LanguagePolicy::Auto, 2);
    assert!(hint_of(&t.poll_command().unwrap()).is_none());
    t.inject_asr_result(ChunkId::from_raw(0), in_language("a", Lang::De)).unwrap();
    assert!(hint_of(&t.poll_command().unwrap()).is_none());
}

#[test]
fn the_first_text_locks_its_language_by_default() {
    let mut t = policed(LanguagePolicy::default(), 4);
    assert!(hint_of(&t.poll_command().unwrap()).is_none());
    t.inject_asr_result(ChunkId::from_raw(0), in_language("", Lang::De)).unwrap();
    assert!(hint_of(&t.poll_command().unwrap()).is_none());
    t.inject_asr_result(ChunkId::from_raw(1), in_language("b", Lang::Ja)).unwrap();
    assert!(hint_of(&t.poll_command().unwrap()) == Some(Lang::Ja));
    t.inject_asr_result(ChunkId::from_raw(2), in_language("c", Lang::De)).unwrap();
    assert!(hint_of(&t.poll_command().unwrap()) == Some(Lang::Ja));
}

#[test]
fn the_most_frequent_language_is_locked() {
    let mut t = policed(LanguagePolicy::AutoLockAfter(3), 5);
    for (i, language) in [Lang::De, Lang::En, Lang::En].into_iter().enumerate() {
        assert!(hint_of(&t.poll_command().unwrap()).is_none());
        t.inject_asr_result(ChunkId::from_raw(i as u64), in_language("x", language)).unwrap();
    }
    assert!(hint_of(&t.poll_command().unwrap()) == Some(Lang::En));
}

#[test]
fn of_equally_frequent_languages_the_first_is_chosen() {
    let tie = [Lang::De, Lang::En, Lang::En, Lang::De];
    assert!(most_frequent_language(&tie) == Lang::De);
    assert!(most_frequent_language(&tie[1..]) == Lang::En);
    assert!(most_frequent_language(&tie[..1]) == Lang::De);
}
