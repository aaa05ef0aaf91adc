//! Commands and their parameters.

use smol_str::SmolStr;

use whispery::{AsrParams, AsrParamsOverride, Lang, SamplingStrategy};

#[test]
fn asr_params_defaults_match_spec() {
    let p = AsrParams::default();
    match p.strategy {
        SamplingStrategy::BeamSearch { beam_size, patience } => {
            assert_eq!(beam_size, 5);
            assert!((f32::from_bits(patience.to_bits()) - -1.0).abs() < 1e-9);
        }
        _ => panic!("default should be BeamSearch"),
    }
    assert!((f32::from_bits(p.initial_temperature.to_bits()) - 0.0).abs() < 1e-9);
    assert!((f32::from_bits(p.temperature_increment.to_bits()) - 0.2).abs() < 1e-9);
    assert_eq!(p.max_attempts, 6);
    assert!(p.no_context);
}

#[test]
fn thresholds_have_their_documented_values() {
    let p = AsrParams::default();
    assert_eq!(f32::from_bits(p.log_prob_threshold.to_bits()), -1.0);
    assert_eq!(f32::from_bits(p.compression_ratio_threshold.to_bits()), 2.4);
    assert_eq!(f32::from_bits(p.no_speech_threshold.to_bits()), 0.6);
    assert!(p.suppress_blank);
    assert!(!p.suppress_non_speech_tokens);
    assert!(p.language_hint.is_none());
    assert!(p.initial_prompt.is_none());
    assert_eq!(p.n_threads, 1);
}

#[test]
fn cloned_parameters_keep_hint_and_prompt() {
    let p = AsrParams {
        language_hint: Some(Lang::Other(SmolStr::new("tlh"))),
        initial_prompt: Some(SmolStr::new("a prompt that does not fit inline, being too long")),
        n_threads: 4,
        ..AsrParams::default()
    };
    let q = p.clone();
    assert_eq!(q.language_hint.unwrap().as_str(), "tlh");
    assert_eq!(
        q.initial_prompt.unwrap().as_str(),
        "a prompt that does not fit inline, being too long"
    );
    assert_eq!(q.n_threads, 4);
}

#[test]
fn an_override_replaces_nothing_by_default() {
    let o = AsrParamsOverride::default();
    assert!(o.language_hint.is_none());
    assert!(o.strategy.is_none());
    assert!(o.initial_temperature.is_none());
    assert!(o.initial_prompt.is_none());
}

#[test]
fn a_cloned_override_keeps_its_fields() {
    let o = AsrParamsOverride {
        language_hint: Some(None),
        strategy: Some(SamplingStrategy::Greedy { best_of: 3 }),
        initial_temperature: None,
        initial_prompt: Some(Some(SmolStr::new("a prompt"))),
    };
    let copy = o.clone();
    assert!(copy.language_hint == Some(None));
    assert_eq!(copy.strategy, Some(SamplingStrategy::Greedy { best_of: 3 }));
    assert!(copy.initial_temperature.is_none());
    assert_eq!(copy.initial_prompt.unwrap().unwrap().as_str(), "a prompt");
}
