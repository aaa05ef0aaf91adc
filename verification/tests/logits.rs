//! Around the acoustic model.

use whispery::align::logits::{
    check_encoder_input, log_probs_of, reject_non_finite_input, LogProbsTV, RawLogits,
};
use whispery::{AlignmentFailureKind, Binary32, Lang, WorkFailure};

fn bits(values: &[f32]) -> Vec<Binary32> {
    values.iter().map(|v| Binary32::from_bits(v.to_bits())).collect()
}

#[test]
fn log_softmax_sums_to_zero_in_log_space() {
    let row = [1.0f32, 2.0, 3.0];
    let max = row.iter().copied().fold(f32::NEG_INFINITY, f32::max);
    let mut sum = 0.0_f64;
    for &x in &row {
        sum += ((x - max) as f64).exp();
    }
    let log_z = max + (sum.ln() as f32);
    let lp: Vec<f32> = row.iter().map(|x| x - log_z).collect();
    let exp_sum: f32 = lp.iter().map(|x| x.exp()).sum();
    assert!((exp_sum - 1.0).abs() < 1e-5, "softmax must sum to 1");
    for &v in &lp {
        assert!(v <= 0.0, "log-prob must be <= 0");
    }
}

#[test]
fn reject_non_finite_input_flags_nan() {
    let samples = vec![0.1_f32, 0.2, f32::NAN, 0.4];
    let err = reject_non_finite_input(&bits(&samples), &Lang::En).unwrap_err();
    match err {
        WorkFailure::AlignmentFailed { kind, message, .. } => {
            assert!(matches!(kind, AlignmentFailureKind::ModelInferenceFailed));
            assert!(
                message.contains("index 2"),
                "message must name index; got {message:?}"
            );
        }
        other => panic!("expected AlignmentFailed; got {other:?}"),
    }
}

#[test]
fn reject_non_finite_input_flags_positive_infinity() {
    let samples = vec![0.0_f32, f32::INFINITY];
    assert!(reject_non_finite_input(&bits(&samples), &Lang::En).is_err());
}

#[test]
fn reject_non_finite_input_flags_negative_infinity() {
    let samples = vec![f32::NEG_INFINITY, 0.0_f32];
    assert!(reject_non_finite_input(&bits(&samples), &Lang::En).is_err());
}

#[test]
fn reject_non_finite_input_passes_finite_audio() {
    let samples = vec![-1.0_f32, 0.0, 1.0, 1e10, -1e10];
    assert!(reject_non_finite_input(&bits(&samples), &Lang::En).is_ok());
}

#[test]
fn at_indexes_correctly() {
    let lp = LogProbsTV {
        t: 2,
        v: 3,
        data: bits(&[-1.0, -2.0, -3.0, -4.0, -5.0, -6.0]),
    };
    assert_eq!(f32::from_bits(lp.at(0, 0).to_bits()), -1.0);
    assert_eq!(f32::from_bits(lp.at(0, 2).to_bits()), -3.0);
    assert_eq!(f32::from_bits(lp.at(1, 0).to_bits()), -4.0);
    assert_eq!(f32::from_bits(lp.at(1, 2).to_bits()), -6.0);
}

fn message_of(failure: WorkFailure) -> String {
    match failure {
        WorkFailure::AlignmentFailed { kind, message, language } => {
            assert_eq!(kind, AlignmentFailureKind::ModelInferenceFailed);
            assert!(language == Lang::Fr);
            message
        }
        other => panic!("unexpected {other:?}"),
    }
}

fn doubled(row: &[Binary32]) -> Vec<Binary32> {
    row.iter()
        .map(|x| Binary32::from_bits((2.0 * f32::from_bits(x.to_bits())).to_bits()))
        .collect()
}

#[test]
fn the_encoder_takes_finite_audio_only() {
    let empty = check_encoder_input(&bits(&[]), &Lang::Fr).unwrap_err();
    assert_eq!(message_of(empty), "samples_for_aligner is empty");
    let nan = check_encoder_input(&bits(&[0.0, f32::NAN]), &Lang::Fr).unwrap_err();
    assert_eq!(
        message_of(nan),
        "samples_for_aligner contains non-finite value at index 1: NaN"
    );
    let inf = check_encoder_input(&bits(&[f32::INFINITY]), &Lang::Fr).unwrap_err();
    assert_eq!(
        message_of(inf),
        "samples_for_aligner contains non-finite value at index 0: inf"
    );
    let neg = check_encoder_input(&bits(&[1.0, 2.0, f32::NEG_INFINITY]), &Lang::Fr).unwrap_err();
    assert_eq!(
        message_of(neg),
        "samples_for_aligner contains non-finite value at index 2: -inf"
    );
    assert!(check_encoder_input(&bits(&[f32::MAX, f32::MIN_POSITIVE, -0.0]), &Lang::Fr).is_ok());
}

#[test]
fn the_output_must_be_one_list_of_frames() {
    let none = log_probs_of(None, &Lang::Fr, doubled).unwrap_err();
    assert_eq!(message_of(none), "Session::run returned no outputs");
    let two = RawLogits { shape: vec![2, 3, 4], data: bits(&[0.0; 24]) };
    assert_eq!(
        message_of(log_probs_of(Some(two), &Lang::Fr, doubled).unwrap_err()),
        "expected output shape (1, T, V); got [2, 3, 4]"
    );
    let flat = RawLogits { shape: vec![1, -7], data: bits(&[]) };
    assert_eq!(
        message_of(log_probs_of(Some(flat), &Lang::Fr, doubled).unwrap_err()),
        "expected output shape (1, T, V); got [1, -7]"
    );
    let empty = RawLogits { shape: vec![1, 0, 32], data: bits(&[]) };
    assert_eq!(
        message_of(log_probs_of(Some(empty), &Lang::Fr, doubled).unwrap_err()),
        "output has zero T=0 or V=32"
    );
}

#[test]
fn rows_are_computed_one_by_one() {
    let raw = RawLogits { shape: vec![1, 2, 3], data: bits(&[1.0, 2.0, 3.0, 4.0, 5.0, 6.0]) };
    let lp = log_probs_of(Some(raw), &Lang::Fr, |row: &[Binary32]| {
        assert_eq!(row.len(), 3);
        doubled(row)
    })
    .unwrap();
    assert_eq!((lp.t, lp.v), (2, 3));
    assert_eq!(f32::from_bits(lp.at(0, 0).to_bits()), 2.0);
    assert_eq!(f32::from_bits(lp.at(1, 1).to_bits()), 10.0);
    assert_eq!(f32::from_bits(lp.at(1, 2).to_bits()), 12.0);
}
