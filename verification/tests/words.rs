//! From an alignment path to timed words.

use std::borrow::Cow;
use std::time::Duration;

use whispery::align::logits::LogProbsTV;
use whispery::align::speech::build_speech_frames;
use whispery::align::words;
use whispery::align::words::{
    accumulate_per_word, max_silent_run_frames, retain_supported, words_of_path, ViterbiPath,
};
use whispery::{AlignmentResult, Binary32, TimeRange, Timebase};

const DEFAULT_MIN_SPEECH_COVERAGE: f32 = f32::from_bits(words::DEFAULT_MIN_SPEECH_COVERAGE);
const DEFAULT_MAX_INTRA_SILENT_RUN: Duration =
    Duration::new(0, words::DEFAULT_MAX_INTRA_SILENT_RUN);

#[allow(clippy::too_many_arguments)]
fn compose_words<F: Fn(u64, u64) -> TimeRange>(
    path: &ViterbiPath,
    log_probs: &LogProbsTV,
    word_idx_per_token: &[Option<usize>],
    original_words: &[Cow<'_, str>],
    speech_frames: &[bool],
    chunk_first_sample_in_stream: u64,
    hop_samples: u32,
    n_samples: u64,
    samples_to_output_range: F,
    min_speech_coverage: f32,
    max_intra_silent_run: Duration,
) -> AlignmentResult {
    let originals: Vec<String> = original_words.iter().map(|w| w.to_string()).collect();
    let limit = max_silent_run_frames(
        hop_samples,
        max_intra_silent_run.as_secs(),
        max_intra_silent_run.subsec_nanos(),
    );
    let samples_per_frame = if log_probs.t >= 2 {
        n_samples as f64 / (log_probs.t - 1) as f64
    } else {
        hop_samples as f64
    };
    words_of_path(
        path,
        word_idx_per_token,
        &originals,
        speech_frames,
        limit,
        chunk_first_sample_in_stream,
        n_samples,
        |speech, total| !((speech as f32 / total as f32) < min_speech_coverage),
        |frame| (frame as f64 * samples_per_frame).round() as u64,
        |emissions| {
            let mut sum = 0.0_f32;
            for e in emissions {
                let lp = log_probs.at(e.frame as usize, e.token_id as usize);
                sum += f32::from_bits(lp.to_bits());
            }
            let mean = sum / emissions.len() as f32;
            Binary32::from_bits(mean.exp().clamp(0.0, 1.0).to_bits())
        },
        samples_to_output_range,
    )
}

fn tb_ms() -> Timebase {
    Timebase::new(1, 1000)
}

fn lp_const(t: usize, v: usize, value: f32) -> LogProbsTV {
    LogProbsTV {
        t,
        v,
        data: vec![Binary32::from_bits(value.to_bits()); t * v],
    }
}

fn fake_samples_to_output_range(start: u64, end: u64) -> TimeRange {
    TimeRange::new(start as i64, end as i64, tb_ms())
}

#[test]
fn missing_word_remains_none_and_drops_from_output() {
    let path = ViterbiPath {
        state_per_frame: vec![0, 1, 2, 2, 2, 2],
        tokens: vec![10, 20],
    };
    let log_probs = lp_const(6, 30, -1.0);
    let word_idx_per_token = vec![Some(0), Some(1)];
    let original = vec![Cow::Borrowed("hello"), Cow::Borrowed("world")];

    let speech_frames = vec![true; log_probs.t];
    let result = compose_words(
        &path,
        &log_probs,
        &word_idx_per_token,
        &original,
        &speech_frames,
        0,
        320,
        log_probs.t as u64 * 320,
        fake_samples_to_output_range,
        DEFAULT_MIN_SPEECH_COVERAGE,
        DEFAULT_MAX_INTRA_SILENT_RUN,
    );
    let words = result.words();
    assert_eq!(words.len(), 1, "silence-masked word must drop");
    assert_eq!(words[0].text(), "hello");
}

#[test]
fn delimiter_token_is_skipped() {
    let path = ViterbiPath {
        state_per_frame: vec![0, 1, 2, 3, 4, 5, 6],
        tokens: vec![10, 99, 20],
    };
    let log_probs = lp_const(7, 100, -1.0);
    let word_idx_per_token = vec![Some(0), None, Some(1)];
    let original = vec![Cow::Borrowed("hello"), Cow::Borrowed("world")];

    let speech_frames = vec![true; log_probs.t];
    let result = compose_words(
        &path,
        &log_probs,
        &word_idx_per_token,
        &original,
        &speech_frames,
        0,
        320,
        log_probs.t as u64 * 320,
        fake_samples_to_output_range,
        DEFAULT_MIN_SPEECH_COVERAGE,
        DEFAULT_MAX_INTRA_SILENT_RUN,
    );
    let words = result.words();
    assert_eq!(words.len(), 2);
    assert_eq!(words[0].text(), "hello");
    assert_eq!(words[1].text(), "world");
}

#[test]
fn surface_form_preserved_not_normalized() {
    let path = ViterbiPath {
        state_per_frame: vec![0, 1, 2],
        tokens: vec![10],
    };
    let log_probs = lp_const(3, 30, -0.5);
    let word_idx_per_token = vec![Some(0)];
    let original = vec![Cow::Borrowed("Hello!")];

    let speech_frames = vec![true; log_probs.t];
    let result = compose_words(
        &path,
        &log_probs,
        &word_idx_per_token,
        &original,
        &speech_frames,
        0,
        320,
        log_probs.t as u64 * 320,
        fake_samples_to_output_range,
        DEFAULT_MIN_SPEECH_COVERAGE,
        DEFAULT_MAX_INTRA_SILENT_RUN,
    );
    assert_eq!(result.words()[0].text(), "Hello!");
}

#[test]
fn frame_to_output_range_uses_chunk_first_sample_offset() {
    let path = ViterbiPath {
        state_per_frame: vec![0, 1, 1],
        tokens: vec![10],
    };
    let log_probs = lp_const(3, 30, -0.5);
    let word_idx_per_token = vec![Some(0)];
    let original = vec![Cow::Borrowed("hi")];

    let speech_frames = vec![true; log_probs.t];
    let result = compose_words(
        &path,
        &log_probs,
        &word_idx_per_token,
        &original,
        &speech_frames,
        8_000,
        320,
        log_probs.t as u64 * 320,
        fake_samples_to_output_range,
        DEFAULT_MIN_SPEECH_COVERAGE,
        DEFAULT_MAX_INTRA_SILENT_RUN,
    );
    let r = result.words()[0].range();
    assert_eq!(r.start_pts(), 8480);
    assert_eq!(r.end_pts(), 8960);
}

#[test]
fn all_silence_frames_drop_every_word() {
    let path = ViterbiPath {
        state_per_frame: vec![0, 1, 2, 3, 4],
        tokens: vec![10, 20],
    };
    let log_probs = lp_const(5, 30, -1.0);
    let word_idx_per_token = vec![Some(0), Some(1)];
    let original = vec![Cow::Borrowed("hello"), Cow::Borrowed("world")];
    let speech_frames = vec![false; log_probs.t];

    let result = compose_words(
        &path,
        &log_probs,
        &word_idx_per_token,
        &original,
        &speech_frames,
        0,
        320,
        log_probs.t as u64 * 320,
        fake_samples_to_output_range,
        DEFAULT_MIN_SPEECH_COVERAGE,
        DEFAULT_MAX_INTRA_SILENT_RUN,
    );
    assert!(
        result.words().is_empty(),
        "no words may emit when every frame is silence-masked; got {:?}",
        result.words()
    );
}

#[test]
fn partial_silence_drops_only_the_silent_word() {
    let path = ViterbiPath {
        state_per_frame: vec![0, 1, 2, 3, 4],
        tokens: vec![10, 20],
    };
    let log_probs = lp_const(5, 30, -1.0);
    let word_idx_per_token = vec![Some(0), Some(1)];
    let original = vec![Cow::Borrowed("hello"), Cow::Borrowed("world")];
    let speech_frames = vec![false, true, false, false, false];

    let result = compose_words(
        &path,
        &log_probs,
        &word_idx_per_token,
        &original,
        &speech_frames,
        0,
        320,
        log_probs.t as u64 * 320,
        fake_samples_to_output_range,
        DEFAULT_MIN_SPEECH_COVERAGE,
        DEFAULT_MAX_INTRA_SILENT_RUN,
    );
    assert_eq!(result.words().len(), 1);
    assert_eq!(result.words()[0].text(), "hello");
}

#[test]
fn word_with_brief_silent_gap_is_kept_with_speech_supported_span() {
    let path = ViterbiPath {
        state_per_frame: vec![1, 0, 1, 0, 1],
        tokens: vec![10],
    };
    let log_probs = lp_const(5, 30, -1.0);
    let word_idx_per_token = vec![Some(0)];
    let original = vec![Cow::Borrowed("hello")];
    let speech_frames = vec![true, true, false, true, true];

    let result = compose_words(
        &path,
        &log_probs,
        &word_idx_per_token,
        &original,
        &speech_frames,
        0,
        320,
        log_probs.t as u64 * 320,
        fake_samples_to_output_range,
        DEFAULT_MIN_SPEECH_COVERAGE,
        DEFAULT_MAX_INTRA_SILENT_RUN,
    );
    assert_eq!(
        result.words().len(),
        1,
        "speech-supported word with intra-silent gap must NOT drop; got {:?}",
        result.words()
    );
    let r = result.words()[0].range();
    assert_eq!(
        r.start_pts(),
        0,
        "range starts at first speech-supported frame"
    );
    assert_eq!(
        r.end_pts(),
        1_600,
        "range ends one past last speech-supported frame"
    );
}

#[test]
fn fragmented_word_with_minority_speech_support_drops() {
    let path = ViterbiPath {
        state_per_frame: vec![1, 1, 1, 1, 1],
        tokens: vec![10],
    };
    let log_probs = lp_const(5, 30, -1.0);
    let word_idx_per_token = vec![Some(0)];
    let original = vec![Cow::Borrowed("missed")];
    let speech_frames = vec![true, false, false, false, false];

    let result = compose_words(
        &path,
        &log_probs,
        &word_idx_per_token,
        &original,
        &speech_frames,
        0,
        320,
        log_probs.t as u64 * 320,
        fake_samples_to_output_range,
        DEFAULT_MIN_SPEECH_COVERAGE,
        DEFAULT_MAX_INTRA_SILENT_RUN,
    );
    assert!(
        result.words().is_empty(),
        "fragmented word (1/5 coverage) must drop; got {:?}",
        result.words()
    );
}

#[test]
fn word_spanning_long_silent_gap_drops() {
    let mut state_per_frame = vec![0_usize; 21];
    state_per_frame[0] = 1;
    state_per_frame[20] = 1;
    let path = ViterbiPath {
        state_per_frame,
        tokens: vec![10],
    };
    let log_probs = lp_const(21, 30, -1.0);
    let word_idx_per_token = vec![Some(0)];
    let original = vec![Cow::Borrowed("split")];
    let mut speech_frames = vec![false; 21];
    speech_frames[0] = true;
    speech_frames[20] = true;

    let result = compose_words(
        &path,
        &log_probs,
        &word_idx_per_token,
        &original,
        &speech_frames,
        0,
        320,
        log_probs.t as u64 * 320,
        fake_samples_to_output_range,
        DEFAULT_MIN_SPEECH_COVERAGE,
        DEFAULT_MAX_INTRA_SILENT_RUN,
    );
    assert!(
        result.words().is_empty(),
        "word with 19-frame intra-silent run must drop; got {:?}",
        result.words()
    );
}

#[test]
fn word_ranges_are_clamped_to_chunk_bounds() {
    let path = ViterbiPath {
        state_per_frame: vec![1, 1, 1, 1],
        tokens: vec![10],
    };
    let log_probs = lp_const(4, 30, -1.0);
    let word_idx_per_token = vec![Some(0)];
    let original = vec![Cow::Borrowed("ok")];
    let speech_frames = vec![true; 4];

    let result = compose_words(
        &path,
        &log_probs,
        &word_idx_per_token,
        &original,
        &speech_frames,
        0,
        320,
        /* n_samples: */ 1000,
        fake_samples_to_output_range,
        DEFAULT_MIN_SPEECH_COVERAGE,
        DEFAULT_MAX_INTRA_SILENT_RUN,
    );
    assert_eq!(result.words().len(), 1);
    let r = result.words()[0].range();
    assert_eq!(r.start_pts(), 0);
    assert_eq!(
        r.end_pts(),
        1000,
        "end must clamp to chunk bound (1000), not raw 1280; got {}",
        r.end_pts()
    );
}

#[test]
fn word_entirely_in_overshoot_drops() {
    let path = ViterbiPath {
        state_per_frame: vec![0, 0, 0, 1],
        tokens: vec![10],
    };
    let log_probs = lp_const(4, 30, -1.0);
    let word_idx_per_token = vec![Some(0)];
    let original = vec![Cow::Borrowed("late")];
    let speech_frames = vec![true; 4];

    let result = compose_words(
        &path,
        &log_probs,
        &word_idx_per_token,
        &original,
        &speech_frames,
        0,
        320,
        /* n_samples: */ 900,
        fake_samples_to_output_range,
        DEFAULT_MIN_SPEECH_COVERAGE,
        DEFAULT_MAX_INTRA_SILENT_RUN,
    );
    assert!(
        result.words().is_empty(),
        "word emitting only in the overshoot tail must drop; got {:?}",
        result.words()
    );
}

#[test]
fn word_with_silent_run_at_threshold_is_kept() {
    let path = ViterbiPath {
        state_per_frame: vec![1, 0, 0, 0, 0, 1],
        tokens: vec![10],
    };
    let log_probs = lp_const(6, 30, -1.0);
    let word_idx_per_token = vec![Some(0)];
    let original = vec![Cow::Borrowed("ok")];
    let speech_frames = vec![true, false, false, false, false, true];

    let result = compose_words(
        &path,
        &log_probs,
        &word_idx_per_token,
        &original,
        &speech_frames,
        0,
        320,
        log_probs.t as u64 * 320,
        fake_samples_to_output_range,
        DEFAULT_MIN_SPEECH_COVERAGE,
        DEFAULT_MAX_INTRA_SILENT_RUN,
    );
    assert_eq!(
        result.words().len(),
        1,
        "4-frame intra-silent run is at the 80 ms threshold and must be kept; got {:?}",
        result.words()
    );
    let r = result.words()[0].range();
    assert_eq!(r.start_pts(), 0);
    assert_eq!(r.end_pts(), 6 * 320);
}

#[test]
fn longer_max_intra_silent_run_keeps_word_default_would_drop() {
    let path = ViterbiPath {
        state_per_frame: vec![1, 0, 0, 0, 0, 0, 1],
        tokens: vec![10],
    };
    let log_probs = lp_const(7, 30, -1.0);
    let word_idx_per_token = vec![Some(0)];
    let original = vec![Cow::Borrowed("ok")];
    let speech_frames = vec![true, false, false, false, false, false, true];

    let default_result = compose_words(
        &path,
        &log_probs,
        &word_idx_per_token,
        &original,
        &speech_frames,
        0,
        320,
        log_probs.t as u64 * 320,
        fake_samples_to_output_range,
        DEFAULT_MIN_SPEECH_COVERAGE,
        DEFAULT_MAX_INTRA_SILENT_RUN,
    );
    assert!(
        default_result.words().is_empty(),
        "default 80 ms threshold must drop a 5-frame (100 ms) silent run"
    );

    let permissive_result = compose_words(
        &path,
        &log_probs,
        &word_idx_per_token,
        &original,
        &speech_frames,
        0,
        320,
        log_probs.t as u64 * 320,
        fake_samples_to_output_range,
        DEFAULT_MIN_SPEECH_COVERAGE,
        Duration::from_millis(100),
    );
    assert_eq!(
        permissive_result.words().len(),
        1,
        "100 ms threshold must keep a 5-frame silent run; got {:?}",
        permissive_result.words()
    );
}

#[test]
fn stricter_min_speech_coverage_drops_word_default_would_keep() {
    let path = ViterbiPath {
        state_per_frame: vec![1, 1, 1, 1, 1],
        tokens: vec![10],
    };
    let log_probs = lp_const(5, 30, -1.0);
    let word_idx_per_token = vec![Some(0)];
    let original = vec![Cow::Borrowed("ok")];
    let speech_frames = vec![true, true, false, true, true];

    let default_result = compose_words(
        &path,
        &log_probs,
        &word_idx_per_token,
        &original,
        &speech_frames,
        0,
        320,
        log_probs.t as u64 * 320,
        fake_samples_to_output_range,
        DEFAULT_MIN_SPEECH_COVERAGE,
        DEFAULT_MAX_INTRA_SILENT_RUN,
    );
    assert_eq!(
        default_result.words().len(),
        1,
        "default 0.5 coverage must keep an 0.8-coverage word; got {:?}",
        default_result.words()
    );

    let strict_result = compose_words(
        &path,
        &log_probs,
        &word_idx_per_token,
        &original,
        &speech_frames,
        0,
        320,
        log_probs.t as u64 * 320,
        fake_samples_to_output_range,
        0.9,
        DEFAULT_MAX_INTRA_SILENT_RUN,
    );
    assert!(
        strict_result.words().is_empty(),
        "strict 0.9 coverage must drop an 0.8-coverage word; got {:?}",
        strict_result.words()
    );
}

#[test]
fn long_word_with_one_frame_silent_gap_is_kept() {
    let path = ViterbiPath {
        state_per_frame: vec![1, 0, 1, 0, 1, 0, 1, 0, 1, 0, 1],
        tokens: vec![10],
    };
    let log_probs = lp_const(11, 30, -1.0);
    let word_idx_per_token = vec![Some(0)];
    let original = vec![Cow::Borrowed("alignment")];
    let speech_frames = vec![
        true, true, true, true, true, true, false, true, true, true, true
    ];

    let result = compose_words(
        &path,
        &log_probs,
        &word_idx_per_token,
        &original,
        &speech_frames,
        0,
        320,
        log_probs.t as u64 * 320,
        fake_samples_to_output_range,
        DEFAULT_MIN_SPEECH_COVERAGE,
        DEFAULT_MAX_INTRA_SILENT_RUN,
    );
    assert_eq!(
        result.words().len(),
        1,
        "long word with brief intra-silent gap must NOT drop; got {:?}",
        result.words()
    );
    let w = &result.words()[0];
    assert_eq!(w.text(), "alignment");
    assert_eq!(w.range().start_pts(), 0);
    assert_eq!(w.range().end_pts(), 11 * 320);
}

#[test]
fn word_with_only_blanks_in_span_emits_normally() {
    let path = ViterbiPath {
        state_per_frame: vec![1, 0, 1, 0, 1],
        tokens: vec![10],
    };
    let log_probs = lp_const(5, 30, -1.0);
    let word_idx_per_token = vec![Some(0)];
    let original = vec![Cow::Borrowed("hello")];
    let speech_frames = vec![true; 5];

    let result = compose_words(
        &path,
        &log_probs,
        &word_idx_per_token,
        &original,
        &speech_frames,
        0,
        320,
        log_probs.t as u64 * 320,
        fake_samples_to_output_range,
        DEFAULT_MIN_SPEECH_COVERAGE,
        DEFAULT_MAX_INTRA_SILENT_RUN,
    );
    assert_eq!(result.words().len(), 1);
}

#[test]
fn word_end_extends_through_trailing_blank_stays_for_held_word() {
    let path = ViterbiPath {
        state_per_frame: vec![1, 2, 2],
        tokens: vec![10],
    };
    let log_probs = lp_const(3, 30, -1.0);
    let word_idx_per_token = vec![Some(0)];
    let original = vec![Cow::Borrowed("hi")];
    let speech_frames = vec![true, true, true];

    let n_samples: u64 = 1_500;
    let result = compose_words(
        &path,
        &log_probs,
        &word_idx_per_token,
        &original,
        &speech_frames,
        0,
        320,
        n_samples,
        fake_samples_to_output_range,
        DEFAULT_MIN_SPEECH_COVERAGE,
        DEFAULT_MAX_INTRA_SILENT_RUN,
    );
    assert_eq!(result.words().len(), 1);
    let r = result.words()[0].range();
    assert_eq!(r.start_pts(), 0);
    assert_eq!(
        r.end_pts(),
        1_500,
        "trailing speech-supported blank-stays at state 2*(i+1) must extend token i's word; got {}",
        r.end_pts()
    );
}

#[test]
fn trailing_non_speech_blank_stays_do_not_extend_word_end() {
    let path = ViterbiPath {
        state_per_frame: vec![1, 2, 2],
        tokens: vec![10],
    };
    let log_probs = lp_const(3, 30, -1.0);
    let word_idx_per_token = vec![Some(0)];
    let original = vec![Cow::Borrowed("hi")];
    let speech_frames = vec![true, false, false];

    let n_samples: u64 = 1_500;
    let result = compose_words(
        &path,
        &log_probs,
        &word_idx_per_token,
        &original,
        &speech_frames,
        0,
        320,
        n_samples,
        fake_samples_to_output_range,
        DEFAULT_MIN_SPEECH_COVERAGE,
        DEFAULT_MAX_INTRA_SILENT_RUN,
    );
    assert_eq!(result.words().len(), 1);
    let r = result.words()[0].range();
    assert_eq!(r.start_pts(), 0);
    assert_eq!(
        r.end_pts(),
        750,
        "non-speech blank-stays must NOT extend end_frame; got {}",
        r.end_pts()
    );
}

#[test]
fn inter_word_blank_through_delimiter_does_not_extend_previous_word() {
    let path = ViterbiPath {
        state_per_frame: vec![1, 2, 3, 4, 5, 6],
        tokens: vec![10, 99, 20],
    };
    let log_probs = lp_const(6, 100, -1.0);
    let word_idx_per_token = vec![Some(0), None, Some(1)];
    let original = vec![Cow::Borrowed("hello"), Cow::Borrowed("world")];
    let speech_frames = vec![true; 6];

    let n_samples: u64 = 1_500;
    let result = compose_words(
        &path,
        &log_probs,
        &word_idx_per_token,
        &original,
        &speech_frames,
        0,
        320,
        n_samples,
        fake_samples_to_output_range,
        DEFAULT_MIN_SPEECH_COVERAGE,
        DEFAULT_MAX_INTRA_SILENT_RUN,
    );
    assert_eq!(result.words().len(), 2);
    let w0 = result.words()[0].range();
    let w1 = result.words()[1].range();
    assert_eq!(w0.start_pts(), 0);
    assert_eq!(
        w0.end_pts(),
        600,
        "hello must NOT extend through the inter-word delimiter blank; got {}",
        w0.end_pts()
    );
    assert_eq!(w1.start_pts(), 4 * 300);
    assert_eq!(w1.end_pts(), 1_500);
}

#[test]
fn build_speech_frames_marks_overlapping_segments() {

    let tb_16k = Timebase::new(1, 16_000);
    let segs = vec![TimeRange::new(320, 960, tb_16k)];
    let mask = build_speech_frames(/* n_frames: */ 5, /* hop_samples: */ 320, &segs);
    assert_eq!(mask, vec![false, true, true, false, false]);
}

#[test]
fn build_speech_frames_handles_no_segments() {
    let mask = build_speech_frames(4, 320, &[]);
    assert_eq!(mask, vec![false; 4]);
}

#[test]
fn build_speech_frames_hop_one_with_no_segments_is_all_silence() {
    let mask = build_speech_frames(8, 1, &[]);
    assert_eq!(
        mask,
        vec![false; 8],
        "hop=1, no VAD: every frame must be silence; got {:?}",
        mask
    );
}

#[test]
fn build_speech_frames_odd_hop_requires_strict_majority() {

    let tb_16k = Timebase::new(1, 16_000);
    let segs = vec![TimeRange::new(0, 1, tb_16k)];
    let mask = build_speech_frames(4, 3, &segs);
    assert_eq!(
        mask,
        vec![false; 4],
        "hop=3, 1-sample overlap is below ceil-half threshold; got {:?}",
        mask
    );

    let segs_at = vec![TimeRange::new(0, 2, tb_16k)];
    let mask_at = build_speech_frames(4, 3, &segs_at);
    assert_eq!(
        mask_at[0], true,
        "hop=3, 2-sample overlap (= ceil-half) is at threshold and must count"
    );
}

#[test]
fn build_speech_frames_rejects_sub_threshold_vad_island() {

    let tb_16k = Timebase::new(1, 16_000);
    let segs = vec![TimeRange::new(10, 11, tb_16k)];
    let mask = build_speech_frames(5, 320, &segs);
    assert_eq!(mask, vec![false; 5]);
}

#[test]
fn build_speech_frames_threshold_is_inclusive() {

    let tb_16k = Timebase::new(1, 16_000);
    let segs_at = vec![TimeRange::new(0, 160, tb_16k)];
    assert_eq!(
        build_speech_frames(2, 320, &segs_at),
        vec![true, false],
        "exactly 50% overlap is at threshold and must count"
    );
    let segs_under = vec![TimeRange::new(0, 159, tb_16k)];
    assert_eq!(
        build_speech_frames(2, 320, &segs_under),
        vec![false, false],
        "1 sample under threshold must drop the frame"
    );
}

#[test]
fn build_speech_frames_accumulates_overlap_across_adjacent_segments() {

    let tb_16k = Timebase::new(1, 16_000);
    let segs = vec![
        TimeRange::new(0, 80, tb_16k),
        TimeRange::new(160, 240, tb_16k),
    ];
    assert_eq!(
        build_speech_frames(2, 320, &segs),
        vec![true, false],
        "two sub-threshold segments inside one frame must accumulate to clear threshold"
    );
}

#[test]
fn score_in_unit_interval() {
    let path = ViterbiPath {
        state_per_frame: vec![0, 1, 2],
        tokens: vec![10],
    };
    let log_probs = lp_const(3, 30, 0.0);
    let word_idx_per_token = vec![Some(0)];
    let original = vec![Cow::Borrowed("hi")];
    let speech_frames = vec![true; log_probs.t];
    let result = compose_words(
        &path,
        &log_probs,
        &word_idx_per_token,
        &original,
        &speech_frames,
        0,
        320,
        log_probs.t as u64 * 320,
        fake_samples_to_output_range,
        DEFAULT_MIN_SPEECH_COVERAGE,
        DEFAULT_MAX_INTRA_SILENT_RUN,
    );
    let s = f32::from_bits(result.words()[0].score().to_bits());
    assert!((0.0..=1.0).contains(&s));
}

#[test]
fn compose_words_uses_effective_samples_per_frame_not_nominal_hop() {
    let mut state_per_frame = vec![0_usize; 1500];
    state_per_frame[100] = 1;
    let path = ViterbiPath {
        state_per_frame,
        tokens: vec![10],
    };
    let log_probs = lp_const(1500, 30, -1.0);
    let word_idx_per_token = vec![Some(0)];
    let original = vec![Cow::Borrowed("ratio")];
    let speech_frames = vec![true; 1500];

    let result = compose_words(
        &path,
        &log_probs,
        &word_idx_per_token,
        &original,
        &speech_frames,
        0,
        320,
        480_000,
        fake_samples_to_output_range,
        DEFAULT_MIN_SPEECH_COVERAGE,
        DEFAULT_MAX_INTRA_SILENT_RUN,
    );
    assert_eq!(result.words().len(), 1);
    let r = result.words()[0].range();
    let start = r.start_pts();
    let expected = 32_021_i64;
    let nominal = 32_000_i64;
    assert!(
        (start - expected).abs() <= 1,
        "expected start within 1 sample of {expected} (effective ratio); \
          got {start}. Nominal `hop * frame` would have been {nominal}.",
    );
    assert_ne!(
        start, nominal,
        "compose must NOT use nominal hop_samples * frame; got {start} \
          (a drift of about 40 ms)",
    );
}

#[test]
fn tolerated_silence_is_counted_in_whole_frames() {
    assert_eq!(max_silent_run_frames(320, 0, 80_000_000), 4);
    assert_eq!(max_silent_run_frames(320, 0, 79_999_999), 3);
    assert_eq!(max_silent_run_frames(160, 0, 80_000_000), 8);
    assert_eq!(max_silent_run_frames(320, 2, 500_000_000), 125);
    assert_eq!(max_silent_run_frames(0, 2, 0), 0);
    assert_eq!(max_silent_run_frames(1, u64::MAX, 0), i64::MAX as u64);
}

#[test]
fn emissions_over_speech_are_listed() {
    let path = ViterbiPath {
        state_per_frame: vec![0, 1, 1, 2, 3, 3, 4, 5],
        tokens: vec![10, 11, 12],
    };
    let words = [Some(0), Some(0), None];
    let speech = [true, false, true, true, true, false, true, true];
    let per_word = accumulate_per_word(&path, &words, 2, &speech);
    let a = per_word[0].as_ref().unwrap();
    assert_eq!((a.start_frame, a.end_frame), (2, 7));
    assert_eq!((a.speech_emissions, a.total_emissions), (2, 4));
    assert_eq!(a.emissions.len(), 2);
    assert_eq!((a.emissions[0].frame, a.emissions[0].token_id), (2, 10));
    assert_eq!((a.emissions[1].frame, a.emissions[1].token_id), (4, 11));
    assert!(per_word[1].is_none());
    let kept = retain_supported(per_word, &[true, true], &speech, 1);
    assert!(kept[0].is_some());
    let dropped = retain_supported(kept, &[true, true], &speech, 0);
    assert!(dropped[0].is_none());
}

#[test]
fn stricter_thresholds_only_drop_words() {
    let path = ViterbiPath {
        state_per_frame: vec![1, 1, 1, 1, 3, 3, 3, 3, 5, 5, 5, 5],
        tokens: vec![7, 8, 9],
    };
    let words = [Some(0), Some(1), Some(2)];
    let originals = [String::from("a"), String::from("b"), String::from("c")];
    let speech =
        [true, true, true, true, true, false, false, true, true, false, false, false];
    let run = |least: u32, limit: u64| {
        words_of_path(
            &path,
            &words,
            &originals,
            &speech,
            limit,
            100,
            1_200,
            |s, t| s * 100 >= least * t,
            |frame| frame as u64 * 100,
            |emissions| Binary32::from_bits(emissions[0].token_id),
            fake_samples_to_output_range,
        )
    };
    let told = |result: &AlignmentResult| -> Vec<(String, i64, i64, u32)> {
        result
            .words()
            .iter()
            .map(|w| {
                let r = w.range();
                (w.text().to_string(), r.start_pts(), r.end_pts(), w.score().to_bits())
            })
            .collect()
    };
    let all = vec![
        (String::from("a"), 100, 500, 7),
        (String::from("b"), 500, 900, 8),
        (String::from("c"), 900, 1_000, 9),
    ];
    assert_eq!(told(&run(25, 2)), all);
    assert_eq!(told(&run(50, 2)), all[..2].to_vec());
    assert_eq!(told(&run(25, 1)), vec![all[0].clone(), all[2].clone()]);
    assert_eq!(told(&run(50, 1)), all[..1].to_vec());
}

#[test]
fn a_silent_path_gives_no_words() {
    let path = ViterbiPath { state_per_frame: vec![1, 2, 3], tokens: vec![7, 8] };
    let result = words_of_path(
        &path,
        &[Some(0), Some(1)],
        &[String::from("a"), String::from("b")],
        &[false, false, false],
        1_000,
        0,
        960,
        |_, _| true,
        |frame| frame as u64 * 320,
        |_| Binary32::zero(),
        fake_samples_to_output_range,
    );
    assert!(result.words().is_empty());
}
