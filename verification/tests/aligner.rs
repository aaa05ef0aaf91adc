//! Aligner parameters.

use whispery::align::aligner::{choose_blank_token, detect_blank_token_id};
use whispery::{Aligner, Lang, RunnerError};

fn assert_send<T: Send>() {}

#[test]
fn aligner_is_send_not_sync() {
    assert_send::<Aligner>();
}

const TOKENIZER_WITH_PADS: &str = r#"{
    "version": "1.0",
    "truncation": null,
    "padding": null,
    "added_tokens": [],
    "normalizer": null,
    "pre_tokenizer": null,
    "post_processor": null,
    "decoder": null,
    "model": {
        "type": "WordLevel",
        "vocab": {"<unk>": 0, "<blank>": 3, "[PAD]": 5, "a": 7},
        "unk_token": "<unk>"
    }
}"#;

const TOKENIZER_WITHOUT_PADS: &str = r#"{
    "version": "1.0",
    "truncation": null,
    "padding": null,
    "added_tokens": [],
    "normalizer": null,
    "pre_tokenizer": null,
    "post_processor": null,
    "decoder": null,
    "model": {
        "type": "WordLevel",
        "vocab": {"<unk>": 0, "a": 1},
        "unk_token": "<unk>"
    }
}"#;

fn tokenizer(json: &str) -> tokenizers::Tokenizer {
    json.parse::<tokenizers::Tokenizer>().unwrap()
}

#[test]
fn the_first_known_blank_token_is_chosen() {
    assert_eq!(choose_blank_token(Some(1), Some(2), Some(3)), Some(1));
    assert_eq!(choose_blank_token(None, Some(2), Some(3)), Some(2));
    assert_eq!(choose_blank_token(None, None, Some(3)), Some(3));
    assert_eq!(choose_blank_token(None, None, None), None);
}

#[test]
fn the_blank_token_comes_from_the_vocabulary() {
    assert_eq!(detect_blank_token_id(&tokenizer(TOKENIZER_WITH_PADS)), Some(5));
    assert_eq!(detect_blank_token_id(&tokenizer(TOKENIZER_WITHOUT_PADS)), None);
}

#[test]
fn an_aligner_starts_with_the_usual_stride() {
    let aligner = Aligner::from_tokenizer(Lang::De, &tokenizer(TOKENIZER_WITH_PADS)).unwrap();
    assert!(*aligner.language() == Lang::De);
    assert_eq!(aligner.sample_rate(), 16_000);
    assert_eq!(aligner.hop_samples(), 320);
    assert_eq!(aligner.blank_token_id(), 5);
}

#[test]
fn a_tokenizer_without_blank_token_is_refused() {
    let RunnerError::AlignerLoad { message } =
        match Aligner::from_tokenizer(Lang::En, &tokenizer(TOKENIZER_WITHOUT_PADS)) {
            Ok(_) => panic!("there is no blank token"),
            Err(error) => error,
        };
    assert_eq!(
        message,
        "tokenizer has no <pad> / [PAD] entry; cannot determine CTC blank token"
    );
}

#[test]
fn aligner_parameters_can_be_replaced() {
    let mut aligner = Aligner::from_blank_token(Lang::En, Some(9)).unwrap();
    assert_eq!(aligner.blank_token_id(), 9);
    aligner.set_sample_rate(8_000);
    aligner.set_hop_samples(160);
    assert_eq!((aligner.sample_rate(), aligner.hop_samples()), (8_000, 160));
    let aligner = aligner.with_sample_rate(16_000).with_hop_samples(640);
    assert_eq!((aligner.sample_rate(), aligner.hop_samples()), (16_000, 640));
    assert_eq!(aligner.blank_token_id(), 9);
}
