//! Splitting segments into runs.

use smol_str::SmolStr;
use whispery::align::script::{script_to_lang, CharClass, SegmentContext};
use whispery::align::script_dispatch::compute_bounds;
use whispery::{dispatch_segments, BoundsSource, Lang, PlainSegment, Run, SegmentLike};

struct MockSeg {
    text: String,
    t0_cs: i64,
    t1_cs: i64,
    dtw_cs: Vec<Option<i64>>,
}

impl SegmentLike for MockSeg {
    fn text(&self) -> &str {
        &self.text
    }
    fn t0(&self) -> i64 {
        self.t0_cs
    }
    fn t1(&self) -> i64 {
        self.t1_cs
    }
    fn token_dtw_timestamps(&self) -> Vec<Option<i64>> {
        self.dtw_cs.clone()
    }
}

fn seg(text: &str, t0_cs: i64, t1_cs: i64, dtw_cs: Vec<Option<i64>>) -> MockSeg {
    MockSeg {
        text: String::from(text),
        t0_cs,
        t1_cs,
        dtw_cs,
    }
}

#[test]
fn empty_segments_produce_no_runs() {
    let runs = dispatch_segments::<MockSeg>(&[], None);
    assert!(runs.is_empty());
}

#[test]
fn empty_text_segment_produces_no_runs() {
    let segs = vec![seg("", 0, 100, vec![])];
    let runs = dispatch_segments(&segs, None);
    assert!(runs.is_empty());
}

#[test]
fn pure_english_one_run() {
    let segs = vec![seg("hello world", 0, 100, vec![])];
    let runs = dispatch_segments(&segs, None);
    assert_eq!(runs.len(), 1);
    assert_eq!(runs[0].language(), &Lang::En);
    assert_eq!(runs[0].text(), "hello world");
    assert_eq!(runs[0].source_segment_idx(), 0);
}

#[test]
fn pure_chinese_one_run() {
    let segs = vec![seg("你好世界", 0, 100, vec![])];
    let runs = dispatch_segments(&segs, None);
    assert_eq!(runs.len(), 1);
    assert_eq!(runs[0].language(), &Lang::Zh);
    assert_eq!(runs[0].text(), "你好世界");
}

#[test]
fn pure_japanese_with_kana() {
    let segs = vec![seg("これは日本語です", 0, 100, vec![])];
    let runs = dispatch_segments(&segs, None);
    assert_eq!(runs.len(), 1);
    assert_eq!(runs[0].language(), &Lang::Ja);
    assert_eq!(runs[0].text(), "これは日本語です");
}

#[test]
fn pure_korean_with_hangul() {
    let segs = vec![seg("안녕하세요", 0, 100, vec![])];
    let runs = dispatch_segments(&segs, None);
    assert_eq!(runs.len(), 1);
    assert_eq!(runs[0].language(), &Lang::Ko);
    assert_eq!(runs[0].text(), "안녕하세요");
}

#[test]
fn english_chinese_codeswitch() {
    let segs = vec![seg("hello 你好", 0, 100, vec![])];
    let runs = dispatch_segments(&segs, None);
    assert_eq!(runs.len(), 2);
    assert_eq!(runs[0].language(), &Lang::En);
    assert_eq!(runs[1].language(), &Lang::Zh);
    assert_eq!(runs[0].text(), "hello ");
    assert_eq!(runs[1].text(), "你好");
}

#[test]
fn ja_zh_kana_precedence_makes_all_han_ja() {
    let segs = vec![seg("漢字あ漢字", 0, 100, vec![])];
    let runs = dispatch_segments(&segs, None);
    assert_eq!(runs.len(), 1);
    assert_eq!(runs[0].language(), &Lang::Ja);
}

#[test]
fn hangul_makes_han_ko_in_segment() {
    let segs = vec![seg("漢字한국", 0, 100, vec![])];
    let runs = dispatch_segments(&segs, None);
    assert_eq!(runs.len(), 1);
    assert_eq!(runs[0].language(), &Lang::Ko);
    assert_eq!(runs[0].text(), "漢字한국");
}

#[test]
fn punctuation_does_not_split_runs() {
    let segs = vec![seg("hello, world.", 0, 100, vec![])];
    let runs = dispatch_segments(&segs, None);
    assert_eq!(runs.len(), 1);
    assert_eq!(runs[0].language(), &Lang::En);
    assert_eq!(runs[0].text(), "hello, world.");
}

#[test]
fn digits_carry_into_active_run() {
    let segs = vec![seg("test 123", 0, 100, vec![])];
    let runs = dispatch_segments(&segs, None);
    assert_eq!(runs.len(), 1);
    assert_eq!(runs[0].language(), &Lang::En);
    assert_eq!(runs[0].text(), "test 123");
}

#[test]
fn leading_punctuation_attaches_to_first_run() {
    let segs = vec![seg("  hello", 0, 100, vec![])];
    let runs = dispatch_segments(&segs, None);
    assert_eq!(runs.len(), 1);
    assert_eq!(runs[0].text(), "  hello");
}

#[test]
fn pure_punctuation_produces_no_run() {
    let segs = vec![seg("...!?", 0, 100, vec![])];
    let runs = dispatch_segments(&segs, None);
    assert!(runs.is_empty());
}

#[test]
fn dtw_available_uses_dtw_bounds() {
    let segs = vec![seg(
        "hello",
        50,
        200,
        vec![Some(70), Some(90), Some(120), Some(180), Some(190)],
    )];
    let runs = dispatch_segments(&segs, None);
    assert_eq!(runs.len(), 1);
    assert_eq!(runs[0].bounds_source(), BoundsSource::Dtw);
    assert_eq!(runs[0].audio_t0_ms(), 700);
    assert_eq!(runs[0].audio_t1_ms(), 1900);
}

#[test]
fn dtw_partial_falls_back_to_segment() {
    let segs = vec![seg(
        "hello",
        50,
        200,
        vec![Some(70), None, Some(120)],
    )];
    let runs = dispatch_segments(&segs, None);
    assert_eq!(runs.len(), 1);
    assert_eq!(runs[0].bounds_source(), BoundsSource::Segment);
    assert_eq!(runs[0].audio_t0_ms(), 500);
    assert_eq!(runs[0].audio_t1_ms(), 2000);
}

#[test]
fn dtw_absent_uses_segment() {
    let segs = vec![seg("hello", 50, 200, vec![])];
    let runs = dispatch_segments(&segs, None);
    assert_eq!(runs.len(), 1);
    assert_eq!(runs[0].bounds_source(), BoundsSource::Segment);
    assert_eq!(runs[0].audio_t0_ms(), 500);
    assert_eq!(runs[0].audio_t1_ms(), 2000);
}

#[test]
fn segment_unavailable_falls_back_to_wholeclip() {
    let segs = vec![seg("hello", i64::MIN, i64::MIN, vec![])];
    let runs = dispatch_segments(&segs, None);
    assert_eq!(runs.len(), 1);
    assert_eq!(runs[0].bounds_source(), BoundsSource::Wholeclip);
    assert_eq!(runs[0].audio_t0_ms(), i64::MIN);
    assert_eq!(runs[0].audio_t1_ms(), i64::MAX);
}

#[test]
fn state_lang_disambiguates_latin_to_es() {
    let segs = vec![seg("hola", 0, 100, vec![])];
    let runs = dispatch_segments(&segs, Some(Lang::Es));
    assert_eq!(runs.len(), 1);
    assert_eq!(runs[0].language(), &Lang::Es);
}

#[test]
fn non_latin_state_lang_does_not_bleed_into_latin() {
    let segs = vec![seg("hello", 0, 100, vec![])];
    let runs = dispatch_segments(&segs, Some(Lang::Zh));
    assert_eq!(runs.len(), 1);
    assert_eq!(runs[0].language(), &Lang::En);
}

#[test]
fn multiple_segments_preserve_indices() {
    let segs = vec![
        seg("hello", 0, 50, vec![]),
        seg("你好", 50, 100, vec![]),
        seg("world", 100, 150, vec![]),
    ];
    let runs = dispatch_segments(&segs, None);
    assert_eq!(runs.len(), 3);
    assert_eq!(runs[0].source_segment_idx(), 0);
    assert_eq!(runs[1].source_segment_idx(), 1);
    assert_eq!(runs[2].source_segment_idx(), 2);
    assert_eq!(runs[0].language(), &Lang::En);
    assert_eq!(runs[1].language(), &Lang::Zh);
    assert_eq!(runs[2].language(), &Lang::En);
}

#[test]
fn run_accessors_round_trip() {
    let r = Run::new(
        Lang::En,
        SmolStr::new("hi"),
        100,
        200,
        3,
        BoundsSource::Dtw,
    );
    assert_eq!(r.language(), &Lang::En);
    assert_eq!(r.text(), "hi");
    assert_eq!(r.audio_t0_ms(), 100);
    assert_eq!(r.audio_t1_ms(), 200);
    assert_eq!(r.source_segment_idx(), 3);
    assert_eq!(r.bounds_source(), BoundsSource::Dtw);
}

#[test]
fn run_with_setters_builder_style() {
    let r = Run::new(
        Lang::En,
        SmolStr::new("hi"),
        0,
        100,
        0,
        BoundsSource::Segment,
    )
    .with_language(Lang::Es)
    .with_text(SmolStr::new("hola"))
    .with_audio_t0_ms(50)
    .with_audio_t1_ms(150)
    .with_source_segment_idx(7)
    .with_bounds_source(BoundsSource::Dtw);

    assert_eq!(r.language(), &Lang::Es);
    assert_eq!(r.text(), "hola");
    assert_eq!(r.audio_t0_ms(), 50);
    assert_eq!(r.audio_t1_ms(), 150);
    assert_eq!(r.source_segment_idx(), 7);
    assert_eq!(r.bounds_source(), BoundsSource::Dtw);
}

#[test]
fn run_set_inplace() {
    let mut r = Run::new(
        Lang::En,
        SmolStr::new("hi"),
        0,
        100,
        0,
        BoundsSource::Segment,
    );
    r.set_language(Lang::Es);
    r.set_text(SmolStr::new("hola"));
    r.set_audio_t0_ms(50);
    r.set_audio_t1_ms(150);
    r.set_source_segment_idx(7);
    r.set_bounds_source(BoundsSource::Dtw);

    assert_eq!(r.language(), &Lang::Es);
    assert_eq!(r.text(), "hola");
    assert_eq!(r.audio_t0_ms(), 50);
    assert_eq!(r.audio_t1_ms(), 150);
    assert_eq!(r.source_segment_idx(), 7);
    assert_eq!(r.bounds_source(), BoundsSource::Dtw);
}

#[test]
fn other_scripts_follow_the_hint() {
    let segs = vec![seg("привет", 0, 100, vec![])];
    let hinted = dispatch_segments(&segs, Some(Lang::Ru));
    assert_eq!(hinted.len(), 1);
    assert_eq!(hinted[0].language(), &Lang::Ru);
    assert_eq!(hinted[0].text(), "привет");
    assert!(dispatch_segments(&segs, None).is_empty());
}

#[test]
fn runs_keep_every_character() {
    let surface = "  abc 你好, def。ghi 123";
    let segs = vec![seg(surface, 0, 100, vec![])];
    let runs = dispatch_segments(&segs, None);
    let joined: String = runs.iter().map(|r| r.text()).collect();
    assert_eq!(joined, surface);
    for pair in runs.windows(2) {
        assert!(pair[0].language() != pair[1].language());
    }
}

#[test]
fn plain_segments_are_segments() {
    let segs = vec![PlainSegment {
        text: String::from("hola"),
        t0_cs: 150,
        t1_cs: 250,
        dtw_cs: vec![],
    }];
    let runs = dispatch_segments(&segs, Some(Lang::Es));
    assert_eq!(runs.len(), 1);
    assert_eq!(runs[0].language(), &Lang::Es);
    assert_eq!((runs[0].audio_t0_ms(), runs[0].audio_t1_ms()), (1_500, 2_500));
}

#[test]
fn bounds_come_from_the_best_source() {
    assert_eq!(
        compute_bounds(0, 500, &[Some(120), Some(80), Some(260)]),
        (800, 2_600, BoundsSource::Dtw)
    );
    assert_eq!(
        compute_bounds(10, 500, &[Some(120), None]),
        (100, 5_000, BoundsSource::Segment)
    );
    assert_eq!(
        compute_bounds(i64::MIN, i64::MIN, &[]),
        (i64::MIN, i64::MAX, BoundsSource::Wholeclip)
    );
}

#[test]
fn characters_are_read_by_script() {
    let plain = SegmentContext::from_text("abc");
    let kana = SegmentContext::from_text("漢字かな");
    let hangul = SegmentContext::from_text("한 漢");
    assert!(kana.has_kana && !kana.has_hangul);
    assert!(hangul.has_hangul && !hangul.has_kana);
    assert!(matches!(script_to_lang('漢', plain, None), CharClass::Lang(Lang::Zh)));
    assert!(matches!(script_to_lang('漢', kana, None), CharClass::Lang(Lang::Ja)));
    assert!(matches!(script_to_lang('漢', hangul, None), CharClass::Lang(Lang::Ko)));
    assert!(matches!(script_to_lang('é', plain, Some(&Lang::Fr)), CharClass::Lang(Lang::Fr)));
    assert!(matches!(script_to_lang('a', plain, Some(&Lang::Ja)), CharClass::Lang(Lang::En)));
    assert!(matches!(script_to_lang('ж', plain, Some(&Lang::Uk)), CharClass::Lang(Lang::Uk)));
    assert!(matches!(script_to_lang('ж', plain, None), CharClass::Carry));
    assert!(matches!(script_to_lang('7', plain, Some(&Lang::Uk)), CharClass::Carry));
    assert!(matches!(script_to_lang('!', plain, Some(&Lang::En)), CharClass::Carry));
}
