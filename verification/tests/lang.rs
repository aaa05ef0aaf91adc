//! Languages.

use smol_str::SmolStr;

use whispery::Lang;

#[test]
fn codes_read_back() {
    for code in ["en", "zh", "de", "ja", "ko", "haw", "jw", "yue", "su"] {
        let lang = Lang::from_iso639_1(code);
        assert_eq!(lang.as_str(), code);
    }
    assert!(Lang::from_iso639_1("en") == Lang::En);
    assert!(Lang::from_iso639_1("ko") == Lang::Ko);
    assert!(!matches!(Lang::from_iso639_1("en"), Lang::Other(_)));
}

#[test]
fn unknown_codes_stay_verbatim() {
    let lang = Lang::from_iso639_1("a-code-nobody-assigned-yet");
    assert!(matches!(lang, Lang::Other(_)));
    assert_eq!(lang.as_str(), "a-code-nobody-assigned-yet");
    assert_eq!(Lang::from_iso639_1("").as_str(), "");
    assert_eq!(Lang::from_iso639_1("EN").as_str(), "EN");
    assert!(matches!(Lang::from_iso639_1("EN"), Lang::Other(_)));
}

#[test]
fn languages_compare_by_variant_and_code() {
    assert!(Lang::Other(SmolStr::new("tlh")) == Lang::Other(SmolStr::new("tlh")));
    assert!(Lang::Other(SmolStr::new("tlh")) != Lang::Other(SmolStr::new("qya")));
    assert!(Lang::En != Lang::De);
    assert!(Lang::En != Lang::Other(SmolStr::new("en")));
}

#[test]
fn clones_are_equal() {
    let other = Lang::Other(SmolStr::new("x-a-private-language-with-a-long-name"));
    assert!(other.clone() == other);
    assert_eq!(other.clone().as_str(), "x-a-private-language-with-a-long-name");
    assert!(Lang::Sv.clone() == Lang::Sv);
}
