//! Spoken languages.

use smol_str::SmolStr;
use vstd::prelude::*;

use crate::text;

verus! {

/// Language code: the languages whisper.cpp knows by name, and `Other` for any
/// code outside that list, so that an unexpected code from auto-detection does
/// not fail a run.
///
/// [`Lang::from_iso639_1`] never makes an `Other` of a code that a named
/// variant stands for.
#[non_exhaustive]
#[derive(Debug, Hash, Eq)]
pub enum Lang {
    En, Zh, De, Es, Ru, Ko, Fr, Ja, Pt, Tr,
    Pl, Ca, Nl, Ar, Sv, It, Id, Hi, Fi, Vi,
    He, Uk, El, Ms, Cs, Ro, Da, Hu, Ta, No,
    Th, Ur, Hr, Bg, Lt, La, Mi, Ml, Cy, Sk,
    Te, Fa, Lv, Bn, Sr, Az, Sl, Kn, Et, Mk,
    Br, Eu, Is, Hy, Ne, Mn, Bs, Kk, Sq, Sw,
    Gl, Mr, Pa, Si, Km, Sn, Yo, So, Af, Oc,
    Ka, Be, Tg, Sd, Gu, Am, Yi, Lo, Uz, Fo,
    Ht, Ps, Tk, Nn, Mt, Sa, Lb, My, Bo, Tl,
    Mg, As, Tt, Haw, Ln, Ha, Ba, Jw, Su, Yue,
    /// A code that no named variant stands for.
    Other(SmolStr),
}

impl Lang {
    /// The language's code: the lowercase ISO code of a named variant, the
    /// carried text of `Other`.
    pub open spec fn code(self) -> Seq<char> {
        match self {
            Lang::En => "en"@,
            Lang::Zh => "zh"@,
            Lang::De => "de"@,
            Lang::Es => "es"@,
            Lang::Ru => "ru"@,
            Lang::Ko => "ko"@,
            Lang::Fr => "fr"@,
            Lang::Ja => "ja"@,
            Lang::Pt => "pt"@,
            Lang::Tr => "tr"@,
            Lang::Pl => "pl"@,
            Lang::Ca => "ca"@,
            Lang::Nl => "nl"@,
            Lang::Ar => "ar"@,
            Lang::Sv => "sv"@,
            Lang::It => "it"@,
            Lang::Id => "id"@,
            Lang::Hi => "hi"@,
            Lang::Fi => "fi"@,
            Lang::Vi => "vi"@,
            Lang::He => "he"@,
            Lang::Uk => "uk"@,
            Lang::El => "el"@,
            Lang::Ms => "ms"@,
            Lang::Cs => "cs"@,
            Lang::Ro => "ro"@,
            Lang::Da => "da"@,
            Lang::Hu => "hu"@,
            Lang::Ta => "ta"@,
            Lang::No => "no"@,
            Lang::Th => "th"@,
            Lang::Ur => "ur"@,
            Lang::Hr => "hr"@,
            Lang::Bg => "bg"@,
            Lang::Lt => "lt"@,
            Lang::La => "la"@,
            Lang::Mi => "mi"@,
            Lang::Ml => "ml"@,
            Lang::Cy => "cy"@,
            Lang::Sk => "sk"@,
            Lang::Te => "te"@,
            Lang::Fa => "fa"@,
            Lang::Lv => "lv"@,
            Lang::Bn => "bn"@,
            Lang::Sr => "sr"@,
            Lang::Az => "az"@,
            Lang::Sl => "sl"@,
            Lang::Kn => "kn"@,
            Lang::Et => "et"@,
            Lang::Mk => "mk"@,
            Lang::Br => "br"@,
            Lang::Eu => "eu"@,
            Lang::Is => "is"@,
            Lang::Hy => "hy"@,
            Lang::Ne => "ne"@,
            Lang::Mn => "mn"@,
            Lang::Bs => "bs"@,
            Lang::Kk => "kk"@,
            Lang::Sq => "sq"@,
            Lang::Sw => "sw"@,
            Lang::Gl => "gl"@,
            Lang::Mr => "mr"@,
            Lang::Pa => "pa"@,
            Lang::Si => "si"@,
            Lang::Km => "km"@,
            Lang::Sn => "sn"@,
            Lang::Yo => "yo"@,
            Lang::So => "so"@,
            Lang::Af => "af"@,
            Lang::Oc => "oc"@,
            Lang::Ka => "ka"@,
            Lang::Be => "be"@,
            Lang::Tg => "tg"@,
            Lang::Sd => "sd"@,
            Lang::Gu => "gu"@,
            Lang::Am => "am"@,
            Lang::Yi => "yi"@,
            Lang::Lo => "lo"@,
            Lang::Uz => "uz"@,
            Lang::Fo => "fo"@,
            Lang::Ht => "ht"@,
            Lang::Ps => "ps"@,
            Lang::Tk => "tk"@,
            Lang::Nn => "nn"@,
            Lang::Mt => "mt"@,
            Lang::Sa => "sa"@,
            Lang::Lb => "lb"@,
            Lang::My => "my"@,
            Lang::Bo => "bo"@,
            Lang::Tl => "tl"@,
            Lang::Mg => "mg"@,
            Lang::As => "as"@,
            Lang::Tt => "tt"@,
            Lang::Haw => "haw"@,
            Lang::Ln => "ln"@,
            Lang::Ha => "ha"@,
            Lang::Ba => "ba"@,
            Lang::Jw => "jw"@,
            Lang::Su => "su"@,
            Lang::Yue => "yue"@,
            Lang::Other(s) => text::smol_str_chars(s),
        }
    }

    /// Same variant and, for `Other`, same text.
    pub open spec fn same(self, other: Lang) -> bool {
        match (self, other) {
            (Lang::Other(a), Lang::Other(b)) => text::smol_str_chars(a) == text::smol_str_chars(b),
            _ => self == other,
        }
    }

    /// Some named variant has the given code.
    pub open spec fn named_code(code: Seq<char>) -> bool {
        exists|lang: Lang| lang !is Other && #[trigger] lang.code() == code
    }

    /// Reading `code` gives `lang`: the language has this code, and it is
    /// `Other` only where no named variant has it.
    pub open spec fn reads_as(code: Seq<char>, lang: Lang) -> bool {
        &&& lang.code() == code
        &&& lang is Other <==> !Lang::named_code(code)
    }

    /// The language is not an `Other` with the code of a named variant.
    pub open spec fn canonical(self) -> bool {
        self is Other ==> !Lang::named_code(self.code())
    }

    /// The language's code. Named variants give their lowercase ISO code,
    /// `Other` gives its text.
    pub fn as_str(&self) -> (code: &str)
        ensures
            code@ == self.code(),
    {
        match self {
            Lang::En => "en",
            Lang::Zh => "zh",
            Lang::De => "de",
            Lang::Es => "es",
            Lang::Ru => "ru",
            Lang::Ko => "ko",
            Lang::Fr => "fr",
            Lang::Ja => "ja",
            Lang::Pt => "pt",
            Lang::Tr => "tr",
            Lang::Pl => "pl",
            Lang::Ca => "ca",
            Lang::Nl => "nl",
            Lang::Ar => "ar",
            Lang::Sv => "sv",
            Lang::It => "it",
            Lang::Id => "id",
            Lang::Hi => "hi",
            Lang::Fi => "fi",
            Lang::Vi => "vi",
            Lang::He => "he",
            Lang::Uk => "uk",
            Lang::El => "el",
            Lang::Ms => "ms",
            Lang::Cs => "cs",
            Lang::Ro => "ro",
            Lang::Da => "da",
            Lang::Hu => "hu",
            Lang::Ta => "ta",
            Lang::No => "no",
            Lang::Th => "th",
            Lang::Ur => "ur",
            Lang::Hr => "hr",
            Lang::Bg => "bg",
            Lang::Lt => "lt",
            Lang::La => "la",
            Lang::Mi => "mi",
            Lang::Ml => "ml",
            Lang::Cy => "cy",
            Lang::Sk => "sk",
            Lang::Te => "te",
            Lang::Fa => "fa",
            Lang::Lv => "lv",
            Lang::Bn => "bn",
            Lang::Sr => "sr",
            Lang::Az => "az",
            Lang::Sl => "sl",
            Lang::Kn => "kn",
            Lang::Et => "et",
            Lang::Mk => "mk",
            Lang::Br => "br",
            Lang::Eu => "eu",
            Lang::Is => "is",
            Lang::Hy => "hy",
            Lang::Ne => "ne",
            Lang::Mn => "mn",
            Lang::Bs => "bs",
            Lang::Kk => "kk",
            Lang::Sq => "sq",
            Lang::Sw => "sw",
            Lang::Gl => "gl",
            Lang::Mr => "mr",
            Lang::Pa => "pa",
            Lang::Si => "si",
            Lang::Km => "km",
            Lang::Sn => "sn",
            Lang::Yo => "yo",
            Lang::So => "so",
            Lang::Af => "af",
            Lang::Oc => "oc",
            Lang::Ka => "ka",
            Lang::Be => "be",
            Lang::Tg => "tg",
            Lang::Sd => "sd",
            Lang::Gu => "gu",
            Lang::Am => "am",
            Lang::Yi => "yi",
            Lang::Lo => "lo",
            Lang::Uz => "uz",
            Lang::Fo => "fo",
            Lang::Ht => "ht",
            Lang::Ps => "ps",
            Lang::Tk => "tk",
            Lang::Nn => "nn",
            Lang::Mt => "mt",
            Lang::Sa => "sa",
            Lang::Lb => "lb",
            Lang::My => "my",
            Lang::Bo => "bo",
            Lang::Tl => "tl",
            Lang::Mg => "mg",
            Lang::As => "as",
            Lang::Tt => "tt",
            Lang::Haw => "haw",
            Lang::Ln => "ln",
            Lang::Ha => "ha",
            Lang::Ba => "ba",
            Lang::Jw => "jw",
            Lang::Su => "su",
            Lang::Yue => "yue",
            Lang::Other(s) => s.as_str(),
        }
    }

    /// The language with the given code: the named variant that has it, or
    /// `Other` with the code as its text.
    pub fn from_iso639_1(code: &str) -> (lang: Lang)
        ensures
            Lang::reads_as(code@, lang),
    {
        let named: Vec<Lang> = named_languages();
        let mut i: usize = 0;
        while i < named.len()
            invariant
                i <= named@.len(),
                named@ == named_table(),
                forall|j: int| 0 <= j < i ==> (#[trigger] named@[j]).code() != code@,
            decreases named@.len() - i,
        {
            if text::str_eq(named[i].as_str(), code) {
                proof {
                    lemma_table_named(i as int);
                    assert(named@[i as int].code() == code@);
                }
                return named[i].clone();
            }
            i += 1;
        }
        proof {
            assert forall|lang: Lang| lang !is Other implies #[trigger] lang.code() != code@ by {
                lemma_table_complete(lang);
                assert(named@[lang.rank()] == lang);
            }
        }
        Lang::Other(text::smol_str(code))
    }

    /// Position of a named language in [`named_table`].
    spec fn rank(self) -> int {
        match self {
            Lang::En => 0,
            Lang::Zh => 1,
            Lang::De => 2,
            Lang::Es => 3,
            Lang::Ru => 4,
            Lang::Ko => 5,
            Lang::Fr => 6,
            Lang::Ja => 7,
            Lang::Pt => 8,
            Lang::Tr => 9,
            Lang::Pl => 10,
            Lang::Ca => 11,
            Lang::Nl => 12,
            Lang::Ar => 13,
            Lang::Sv => 14,
            Lang::It => 15,
            Lang::Id => 16,
            Lang::Hi => 17,
            Lang::Fi => 18,
            Lang::Vi => 19,
            Lang::He => 20,
            Lang::Uk => 21,
            Lang::El => 22,
            Lang::Ms => 23,
            Lang::Cs => 24,
            Lang::Ro => 25,
            Lang::Da => 26,
            Lang::Hu => 27,
            Lang::Ta => 28,
            Lang::No => 29,
            Lang::Th => 30,
            Lang::Ur => 31,
            Lang::Hr => 32,
            Lang::Bg => 33,
            Lang::Lt => 34,
            Lang::La => 35,
            Lang::Mi => 36,
            Lang::Ml => 37,
            Lang::Cy => 38,
            Lang::Sk => 39,
            Lang::Te => 40,
            Lang::Fa => 41,
            Lang::Lv => 42,
            Lang::Bn => 43,
            Lang::Sr => 44,
            Lang::Az => 45,
            Lang::Sl => 46,
            Lang::Kn => 47,
            Lang::Et => 48,
            Lang::Mk => 49,
            Lang::Br => 50,
            Lang::Eu => 51,
            Lang::Is => 52,
            Lang::Hy => 53,
            Lang::Ne => 54,
            Lang::Mn => 55,
            Lang::Bs => 56,
            Lang::Kk => 57,
            Lang::Sq => 58,
            Lang::Sw => 59,
            Lang::Gl => 60,
            Lang::Mr => 61,
            Lang::Pa => 62,
            Lang::Si => 63,
            Lang::Km => 64,
            Lang::Sn => 65,
            Lang::Yo => 66,
            Lang::So => 67,
            Lang::Af => 68,
            Lang::Oc => 69,
            Lang::Ka => 70,
            Lang::Be => 71,
            Lang::Tg => 72,
            Lang::Sd => 73,
            Lang::Gu => 74,
            Lang::Am => 75,
            Lang::Yi => 76,
            Lang::Lo => 77,
            Lang::Uz => 78,
            Lang::Fo => 79,
            Lang::Ht => 80,
            Lang::Ps => 81,
            Lang::Tk => 82,
            Lang::Nn => 83,
            Lang::Mt => 84,
            Lang::Sa => 85,
            Lang::Lb => 86,
            Lang::My => 87,
            Lang::Bo => 88,
            Lang::Tl => 89,
            Lang::Mg => 90,
            Lang::As => 91,
            Lang::Tt => 92,
            Lang::Haw => 93,
            Lang::Ln => 94,
            Lang::Ha => 95,
            Lang::Ba => 96,
            Lang::Jw => 97,
            Lang::Su => 98,
            Lang::Yue => 99,
            Lang::Other(_) => -1,
        }
    }

    /// The code of a named language, read as a number in base 256.
    spec fn packed(self) -> int {
        match self {
            Lang::En => 0x656e,
            Lang::Zh => 0x7a68,
            Lang::De => 0x6465,
            Lang::Es => 0x6573,
            Lang::Ru => 0x7275,
            Lang::Ko => 0x6b6f,
            Lang::Fr => 0x6672,
            Lang::Ja => 0x6a61,
            Lang::Pt => 0x7074,
            Lang::Tr => 0x7472,
            Lang::Pl => 0x706c,
            Lang::Ca => 0x6361,
            Lang::Nl => 0x6e6c,
            Lang::Ar => 0x6172,
            Lang::Sv => 0x7376,
            Lang::It => 0x6974,
            Lang::Id => 0x6964,
            Lang::Hi => 0x6869,
            Lang::Fi => 0x6669,
            Lang::Vi => 0x7669,
            Lang::He => 0x6865,
            Lang::Uk => 0x756b,
            Lang::El => 0x656c,
            Lang::Ms => 0x6d73,
            Lang::Cs => 0x6373,
            Lang::Ro => 0x726f,
            Lang::Da => 0x6461,
            Lang::Hu => 0x6875,
            Lang::Ta => 0x7461,
            Lang::No => 0x6e6f,
            Lang::Th => 0x7468,
            Lang::Ur => 0x7572,
            Lang::Hr => 0x6872,
            Lang::Bg => 0x6267,
            Lang::Lt => 0x6c74,
            Lang::La => 0x6c61,
            Lang::Mi => 0x6d69,
            Lang::Ml => 0x6d6c,
            Lang::Cy => 0x6379,
            Lang::Sk => 0x736b,
            Lang::Te => 0x7465,
            Lang::Fa => 0x6661,
            Lang::Lv => 0x6c76,
            Lang::Bn => 0x626e,
            Lang::Sr => 0x7372,
            Lang::Az => 0x617a,
            Lang::Sl => 0x736c,
            Lang::Kn => 0x6b6e,
            Lang::Et => 0x6574,
            Lang::Mk => 0x6d6b,
            Lang::Br => 0x6272,
            Lang::Eu => 0x6575,
            Lang::Is => 0x6973,
            Lang::Hy => 0x6879,
            Lang::Ne => 0x6e65,
            Lang::Mn => 0x6d6e,
            Lang::Bs => 0x6273,
            Lang::Kk => 0x6b6b,
            Lang::Sq => 0x7371,
            Lang::Sw => 0x7377,
            Lang::Gl => 0x676c,
            Lang::Mr => 0x6d72,
            Lang::Pa => 0x7061,
            Lang::Si => 0x7369,
            Lang::Km => 0x6b6d,
            Lang::Sn => 0x736e,
            Lang::Yo => 0x796f,
            Lang::So => 0x736f,
            Lang::Af => 0x6166,
            Lang::Oc => 0x6f63,
            Lang::Ka => 0x6b61,
            Lang::Be => 0x6265,
            Lang::Tg => 0x7467,
            Lang::Sd => 0x7364,
            Lang::Gu => 0x6775,
            Lang::Am => 0x616d,
            Lang::Yi => 0x7969,
            Lang::Lo => 0x6c6f,
            Lang::Uz => 0x757a,
            Lang::Fo => 0x666f,
            Lang::Ht => 0x6874,
            Lang::Ps => 0x7073,
            Lang::Tk => 0x746b,
            Lang::Nn => 0x6e6e,
            Lang::Mt => 0x6d74,
            Lang::Sa => 0x7361,
            Lang::Lb => 0x6c62,
            Lang::My => 0x6d79,
            Lang::Bo => 0x626f,
            Lang::Tl => 0x746c,
            Lang::Mg => 0x6d67,
            Lang::As => 0x6173,
            Lang::Tt => 0x7474,
            Lang::Haw => 0x686177,
            Lang::Ln => 0x6c6e,
            Lang::Ha => 0x6861,
            Lang::Ba => 0x6261,
            Lang::Jw => 0x6a77,
            Lang::Su => 0x7375,
            Lang::Yue => 0x797565,
            Lang::Other(_) => -1,
        }
    }
}

/// A code of two or three ASCII letters, read as a number in base 256.
spec fn pack(code: Seq<char>) -> int {
    if code.len() == 2 {
        code[0] as int * 0x100 + code[1] as int
    } else {
        code[0] as int * 0x1_0000 + code[1] as int * 0x100 + code[2] as int
    }
}

proof fn lemma_packed(lang: Lang)
    requires
        lang !is Other,
    ensures
        pack(lang.code()) == lang.packed(),
{
    match lang {
        Lang::En => reveal_strlit("en"),
        Lang::Zh => reveal_strlit("zh"),
        Lang::De => reveal_strlit("de"),
        Lang::Es => reveal_strlit("es"),
        Lang::Ru => reveal_strlit("ru"),
        Lang::Ko => reveal_strlit("ko"),
        Lang::Fr => reveal_strlit("fr"),
        Lang::Ja => reveal_strlit("ja"),
        Lang::Pt => reveal_strlit("pt"),
        Lang::Tr => reveal_strlit("tr"),
        Lang::Pl => reveal_strlit("pl"),
        Lang::Ca => reveal_strlit("ca"),
        Lang::Nl => reveal_strlit("nl"),
        Lang::Ar => reveal_strlit("ar"),
        Lang::Sv => reveal_strlit("sv"),
        Lang::It => reveal_strlit("it"),
        Lang::Id => reveal_strlit("id"),
        Lang::Hi => reveal_strlit("hi"),
        Lang::Fi => reveal_strlit("fi"),
        Lang::Vi => reveal_strlit("vi"),
        Lang::He => reveal_strlit("he"),
        Lang::Uk => reveal_strlit("uk"),
        Lang::El => reveal_strlit("el"),
        Lang::Ms => reveal_strlit("ms"),
        Lang::Cs => reveal_strlit("cs"),
        Lang::Ro => reveal_strlit("ro"),
        Lang::Da => reveal_strlit("da"),
        Lang::Hu => reveal_strlit("hu"),
        Lang::Ta => reveal_strlit("ta"),
        Lang::No => reveal_strlit("no"),
        Lang::Th => reveal_strlit("th"),
        Lang::Ur => reveal_strlit("ur"),
        Lang::Hr => reveal_strlit("hr"),
        Lang::Bg => reveal_strlit("bg"),
        Lang::Lt => reveal_strlit("lt"),
        Lang::La => reveal_strlit("la"),
        Lang::Mi => reveal_strlit("mi"),
        Lang::Ml => reveal_strlit("ml"),
        Lang::Cy => reveal_strlit("cy"),
        Lang::Sk => reveal_strlit("sk"),
        Lang::Te => reveal_strlit("te"),
        Lang::Fa => reveal_strlit("fa"),
        Lang::Lv => reveal_strlit("lv"),
        Lang::Bn => reveal_strlit("bn"),
        Lang::Sr => reveal_strlit("sr"),
        Lang::Az => reveal_strlit("az"),
        Lang::Sl => reveal_strlit("sl"),
        Lang::Kn => reveal_strlit("kn"),
        Lang::Et => reveal_strlit("et"),
        Lang::Mk => reveal_strlit("mk"),
        Lang::Br => reveal_strlit("br"),
        Lang::Eu => reveal_strlit("eu"),
        Lang::Is => reveal_strlit("is"),
        Lang::Hy => reveal_strlit("hy"),
        Lang::Ne => reveal_strlit("ne"),
        Lang::Mn => reveal_strlit("mn"),
        Lang::Bs => reveal_strlit("bs"),
        Lang::Kk => reveal_strlit("kk"),
        Lang::Sq => reveal_strlit("sq"),
        Lang::Sw => reveal_strlit("sw"),
        Lang::Gl => reveal_strlit("gl"),
        Lang::Mr => reveal_strlit("mr"),
        Lang::Pa => reveal_strlit("pa"),
        Lang::Si => reveal_strlit("si"),
        Lang::Km => reveal_strlit("km"),
        Lang::Sn => reveal_strlit("sn"),
        Lang::Yo => reveal_strlit("yo"),
        Lang::So => reveal_strlit("so"),
        Lang::Af => reveal_strlit("af"),
        Lang::Oc => reveal_strlit("oc"),
        Lang::Ka => reveal_strlit("ka"),
        Lang::Be => reveal_strlit("be"),
        Lang::Tg => reveal_strlit("tg"),
        Lang::Sd => reveal_strlit("sd"),
        Lang::Gu => reveal_strlit("gu"),
        Lang::Am => reveal_strlit("am"),
        Lang::Yi => reveal_strlit("yi"),
        Lang::Lo => reveal_strlit("lo"),
        Lang::Uz => reveal_strlit("uz"),
        Lang::Fo => reveal_strlit("fo"),
        Lang::Ht => reveal_strlit("ht"),
        Lang::Ps => reveal_strlit("ps"),
        Lang::Tk => reveal_strlit("tk"),
        Lang::Nn => reveal_strlit("nn"),
        Lang::Mt => reveal_strlit("mt"),
        Lang::Sa => reveal_strlit("sa"),
        Lang::Lb => reveal_strlit("lb"),
        Lang::My => reveal_strlit("my"),
        Lang::Bo => reveal_strlit("bo"),
        Lang::Tl => reveal_strlit("tl"),
        Lang::Mg => reveal_strlit("mg"),
        Lang::As => reveal_strlit("as"),
        Lang::Tt => reveal_strlit("tt"),
        Lang::Haw => reveal_strlit("haw"),
        Lang::Ln => reveal_strlit("ln"),
        Lang::Ha => reveal_strlit("ha"),
        Lang::Ba => reveal_strlit("ba"),
        Lang::Jw => reveal_strlit("jw"),
        Lang::Su => reveal_strlit("su"),
        Lang::Yue => reveal_strlit("yue"),
        Lang::Other(_) => {},
    }
}

/// The named languages, in declaration order.
spec fn named_table() -> Seq<Lang> {
    seq![
        Lang::En, Lang::Zh, Lang::De, Lang::Es, Lang::Ru,
        Lang::Ko, Lang::Fr, Lang::Ja, Lang::Pt, Lang::Tr,
        Lang::Pl, Lang::Ca, Lang::Nl, Lang::Ar, Lang::Sv,
        Lang::It, Lang::Id, Lang::Hi, Lang::Fi, Lang::Vi,
        Lang::He, Lang::Uk, Lang::El, Lang::Ms, Lang::Cs,
        Lang::Ro, Lang::Da, Lang::Hu, Lang::Ta, Lang::No,
        Lang::Th, Lang::Ur, Lang::Hr, Lang::Bg, Lang::Lt,
        Lang::La, Lang::Mi, Lang::Ml, Lang::Cy, Lang::Sk,
        Lang::Te, Lang::Fa, Lang::Lv, Lang::Bn, Lang::Sr,
        Lang::Az, Lang::Sl, Lang::Kn, Lang::Et, Lang::Mk,
        Lang::Br, Lang::Eu, Lang::Is, Lang::Hy, Lang::Ne,
        Lang::Mn, Lang::Bs, Lang::Kk, Lang::Sq, Lang::Sw,
        Lang::Gl, Lang::Mr, Lang::Pa, Lang::Si, Lang::Km,
        Lang::Sn, Lang::Yo, Lang::So, Lang::Af, Lang::Oc,
        Lang::Ka, Lang::Be, Lang::Tg, Lang::Sd, Lang::Gu,
        Lang::Am, Lang::Yi, Lang::Lo, Lang::Uz, Lang::Fo,
        Lang::Ht, Lang::Ps, Lang::Tk, Lang::Nn, Lang::Mt,
        Lang::Sa, Lang::Lb, Lang::My, Lang::Bo, Lang::Tl,
        Lang::Mg, Lang::As, Lang::Tt, Lang::Haw, Lang::Ln,
        Lang::Ha, Lang::Ba, Lang::Jw, Lang::Su, Lang::Yue,
    ]
}

fn named_languages() -> (named: Vec<Lang>)
    ensures
        named@ == named_table(),
{
    vec![
        Lang::En, Lang::Zh, Lang::De, Lang::Es, Lang::Ru,
        Lang::Ko, Lang::Fr, Lang::Ja, Lang::Pt, Lang::Tr,
        Lang::Pl, Lang::Ca, Lang::Nl, Lang::Ar, Lang::Sv,
        Lang::It, Lang::Id, Lang::Hi, Lang::Fi, Lang::Vi,
        Lang::He, Lang::Uk, Lang::El, Lang::Ms, Lang::Cs,
        Lang::Ro, Lang::Da, Lang::Hu, Lang::Ta, Lang::No,
        Lang::Th, Lang::Ur, Lang::Hr, Lang::Bg, Lang::Lt,
        Lang::La, Lang::Mi, Lang::Ml, Lang::Cy, Lang::Sk,
        Lang::Te, Lang::Fa, Lang::Lv, Lang::Bn, Lang::Sr,
        Lang::Az, Lang::Sl, Lang::Kn, Lang::Et, Lang::Mk,
        Lang::Br, Lang::Eu, Lang::Is, Lang::Hy, Lang::Ne,
        Lang::Mn, Lang::Bs, Lang::Kk, Lang::Sq, Lang::Sw,
        Lang::Gl, Lang::Mr, Lang::Pa, Lang::Si, Lang::Km,
        Lang::Sn, Lang::Yo, Lang::So, Lang::Af, Lang::Oc,
        Lang::Ka, Lang::Be, Lang::Tg, Lang::Sd, Lang::Gu,
        Lang::Am, Lang::Yi, Lang::Lo, Lang::Uz, Lang::Fo,
        Lang::Ht, Lang::Ps, Lang::Tk, Lang::Nn, Lang::Mt,
        Lang::Sa, Lang::Lb, Lang::My, Lang::Bo, Lang::Tl,
        Lang::Mg, Lang::As, Lang::Tt, Lang::Haw, Lang::Ln,
        Lang::Ha, Lang::Ba, Lang::Jw, Lang::Su, Lang::Yue,
    ]
}

proof fn lemma_table_named(i: int)
    requires
        0 <= i < named_table().len(),
    ensures
        named_table()[i] !is Other,
{
}

proof fn lemma_table_complete(lang: Lang)
    requires
        lang !is Other,
    ensures
        0 <= lang.rank() < named_table().len(),
        named_table()[lang.rank()] == lang,
{
}

/// Two named languages with the same code are the same language.
pub proof fn named_codes_are_distinct(a: Lang, b: Lang)
    requires
        a !is Other,
        b !is Other,
        a.code() == b.code(),
    ensures
        a == b,
{
    lemma_packed(a);
    lemma_packed(b);
    assert(a.packed() == b.packed());
}

/// The code of each language, letter by letter: two lowercase letters, and three
/// for Hawaiian and Cantonese.
pub proof fn codes_are_spelled(lang: Lang)
    ensures
        match lang {
            Lang::En => lang.code() == seq!['e', 'n'],
            Lang::Zh => lang.code() == seq!['z', 'h'],
            Lang::De => lang.code() == seq!['d', 'e'],
            Lang::Es => lang.code() == seq!['e', 's'],
            Lang::Ru => lang.code() == seq!['r', 'u'],
            Lang::Ko => lang.code() == seq!['k', 'o'],
            Lang::Fr => lang.code() == seq!['f', 'r'],
            Lang::Ja => lang.code() == seq!['j', 'a'],
            Lang::Pt => lang.code() == seq!['p', 't'],
            Lang::Tr => lang.code() == seq!['t', 'r'],
            Lang::Pl => lang.code() == seq!['p', 'l'],
            Lang::Ca => lang.code() == seq!['c', 'a'],
            Lang::Nl => lang.code() == seq!['n', 'l'],
            Lang::Ar => lang.code() == seq!['a', 'r'],
            Lang::Sv => lang.code() == seq!['s', 'v'],
            Lang::It => lang.code() == seq!['i', 't'],
            Lang::Id => lang.code() == seq!['i', 'd'],
            Lang::Hi => lang.code() == seq!['h', 'i'],
            Lang::Fi => lang.code() == seq!['f', 'i'],
            Lang::Vi => lang.code() == seq!['v', 'i'],
            Lang::He => lang.code() == seq!['h', 'e'],
            Lang::Uk => lang.code() == seq!['u', 'k'],
            Lang::El => lang.code() == seq!['e', 'l'],
            Lang::Ms => lang.code() == seq!['m', 's'],
            Lang::Cs => lang.code() == seq!['c', 's'],
            Lang::Ro => lang.code() == seq!['r', 'o'],
            Lang::Da => lang.code() == seq!['d', 'a'],
            Lang::Hu => lang.code() == seq!['h', 'u'],
            Lang::Ta => lang.code() == seq!['t', 'a'],
            Lang::No => lang.code() == seq!['n', 'o'],
            Lang::Th => lang.code() == seq!['t', 'h'],
            Lang::Ur => lang.code() == seq!['u', 'r'],
            Lang::Hr => lang.code() == seq!['h', 'r'],
            Lang::Bg => lang.code() == seq!['b', 'g'],
            Lang::Lt => lang.code() == seq!['l', 't'],
            Lang::La => lang.code() == seq!['l', 'a'],
            Lang::Mi => lang.code() == seq!['m', 'i'],
            Lang::Ml => lang.code() == seq!['m', 'l'],
            Lang::Cy => lang.code() == seq!['c', 'y'],
            Lang::Sk => lang.code() == seq!['s', 'k'],
            Lang::Te => lang.code() == seq!['t', 'e'],
            Lang::Fa => lang.code() == seq!['f', 'a'],
            Lang::Lv => lang.code() == seq!['l', 'v'],
            Lang::Bn => lang.code() == seq!['b', 'n'],
            Lang::Sr => lang.code() == seq!['s', 'r'],
            Lang::Az => lang.code() == seq!['a', 'z'],
            Lang::Sl => lang.code() == seq!['s', 'l'],
            Lang::Kn => lang.code() == seq!['k', 'n'],
            Lang::Et => lang.code() == seq!['e', 't'],
            Lang::Mk => lang.code() == seq!['m', 'k'],
            Lang::Br => lang.code() == seq!['b', 'r'],
            Lang::Eu => lang.code() == seq!['e', 'u'],
            Lang::Is => lang.code() == seq!['i', 's'],
            Lang::Hy => lang.code() == seq!['h', 'y'],
            Lang::Ne => lang.code() == seq!['n', 'e'],
            Lang::Mn => lang.code() == seq!['m', 'n'],
            Lang::Bs => lang.code() == seq!['b', 's'],
            Lang::Kk => lang.code() == seq!['k', 'k'],
            Lang::Sq => lang.code() == seq!['s', 'q'],
            Lang::Sw => lang.code() == seq!['s', 'w'],
            Lang::Gl => lang.code() == seq!['g', 'l'],
            Lang::Mr => lang.code() == seq!['m', 'r'],
            Lang::Pa => lang.code() == seq!['p', 'a'],
            Lang::Si => lang.code() == seq!['s', 'i'],
            Lang::Km => lang.code() == seq!['k', 'm'],
            Lang::Sn => lang.code() == seq!['s', 'n'],
            Lang::Yo => lang.code() == seq!['y', 'o'],
            Lang::So => lang.code() == seq!['s', 'o'],
            Lang::Af => lang.code() == seq!['a', 'f'],
            Lang::Oc => lang.code() == seq!['o', 'c'],
            Lang::Ka => lang.code() == seq!['k', 'a'],
            Lang::Be => lang.code() == seq!['b', 'e'],
            Lang::Tg => lang.code() == seq!['t', 'g'],
            Lang::Sd => lang.code() == seq!['s', 'd'],
            Lang::Gu => lang.code() == seq!['g', 'u'],
            Lang::Am => lang.code() == seq!['a', 'm'],
            Lang::Yi => lang.code() == seq!['y', 'i'],
            Lang::Lo => lang.code() == seq!['l', 'o'],
            Lang::Uz => lang.code() == seq!['u', 'z'],
            Lang::Fo => lang.code() == seq!['f', 'o'],
            Lang::Ht => lang.code() == seq!['h', 't'],
            Lang::Ps => lang.code() == seq!['p', 's'],
            Lang::Tk => lang.code() == seq!['t', 'k'],
            Lang::Nn => lang.code() == seq!['n', 'n'],
            Lang::Mt => lang.code() == seq!['m', 't'],
            Lang::Sa => lang.code() == seq!['s', 'a'],
            Lang::Lb => lang.code() == seq!['l', 'b'],
            Lang::My => lang.code() == seq!['m', 'y'],
            Lang::Bo => lang.code() == seq!['b', 'o'],
            Lang::Tl => lang.code() == seq!['t', 'l'],
            Lang::Mg => lang.code() == seq!['m', 'g'],
            Lang::As => lang.code() == seq!['a', 's'],
            Lang::Tt => lang.code() == seq!['t', 't'],
            Lang::Haw => lang.code() == seq!['h', 'a', 'w'],
            Lang::Ln => lang.code() == seq!['l', 'n'],
            Lang::Ha => lang.code() == seq!['h', 'a'],
            Lang::Ba => lang.code() == seq!['b', 'a'],
            Lang::Jw => lang.code() == seq!['j', 'w'],
            Lang::Su => lang.code() == seq!['s', 'u'],
            Lang::Yue => lang.code() == seq!['y', 'u', 'e'],
            Lang::Other(text) => lang.code() == text::smol_str_chars(text),
        },
{
    match lang {
        Lang::En => {
            reveal_strlit("en");
            assert(lang.code() =~= seq!['e', 'n']);
        },
        Lang::Zh => {
            reveal_strlit("zh");
            assert(lang.code() =~= seq!['z', 'h']);
        },
        Lang::De => {
            reveal_strlit("de");
            assert(lang.code() =~= seq!['d', 'e']);
        },
        Lang::Es => {
            reveal_strlit("es");
            assert(lang.code() =~= seq!['e', 's']);
        },
        Lang::Ru => {
            reveal_strlit("ru");
            assert(lang.code() =~= seq!['r', 'u']);
        },
        Lang::Ko => {
            reveal_strlit("ko");
            assert(lang.code() =~= seq!['k', 'o']);
        },
        Lang::Fr => {
            reveal_strlit("fr");
            assert(lang.code() =~= seq!['f', 'r']);
        },
        Lang::Ja => {
            reveal_strlit("ja");
            assert(lang.code() =~= seq!['j', 'a']);
        },
        Lang::Pt => {
            reveal_strlit("pt");
            assert(lang.code() =~= seq!['p', 't']);
        },
        Lang::Tr => {
            reveal_strlit("tr");
            assert(lang.code() =~= seq!['t', 'r']);
        },
        Lang::Pl => {
            reveal_strlit("pl");
            assert(lang.code() =~= seq!['p', 'l']);
        },
        Lang::Ca => {
            reveal_strlit("ca");
            assert(lang.code() =~= seq!['c', 'a']);
        },
        Lang::Nl => {
            reveal_strlit("nl");
            assert(lang.code() =~= seq!['n', 'l']);
        },
        Lang::Ar => {
            reveal_strlit("ar");
            assert(lang.code() =~= seq!['a', 'r']);
        },
        Lang::Sv => {
            reveal_strlit("sv");
            assert(lang.code() =~= seq!['s', 'v']);
        },
        Lang::It => {
            reveal_strlit("it");
            assert(lang.code() =~= seq!['i', 't']);
        },
        Lang::Id => {
            reveal_strlit("id");
            assert(lang.code() =~= seq!['i', 'd']);
        },
        Lang::Hi => {
            reveal_strlit("hi");
            assert(lang.code() =~= seq!['h', 'i']);
        },
        Lang::Fi => {
            reveal_strlit("fi");
            assert(lang.code() =~= seq!['f', 'i']);
        },
        Lang::Vi => {
            reveal_strlit("vi");
            assert(lang.code() =~= seq!['v', 'i']);
        },
        Lang::He => {
            reveal_strlit("he");
            assert(lang.code() =~= seq!['h', 'e']);
        },
        Lang::Uk => {
            reveal_strlit("uk");
            assert(lang.code() =~= seq!['u', 'k']);
        },
        Lang::El => {
            reveal_strlit("el");
            assert(lang.code() =~= seq!['e', 'l']);
        },
        Lang::Ms => {
            reveal_strlit("ms");
            assert(lang.code() =~= seq!['m', 's']);
        },
        Lang::Cs => {
            reveal_strlit("cs");
            assert(lang.code() =~= seq!['c', 's']);
        },
        Lang::Ro => {
            reveal_strlit("ro");
            assert(lang.code() =~= seq!['r', 'o']);
        },
        Lang::Da => {
            reveal_strlit("da");
            assert(lang.code() =~= seq!['d', 'a']);
        },
        Lang::Hu => {
            reveal_strlit("hu");
            assert(lang.code() =~= seq!['h', 'u']);
        },
        Lang::Ta => {
            reveal_strlit("ta");
            assert(lang.code() =~= seq!['t', 'a']);
        },
        Lang::No => {
            reveal_strlit("no");
            assert(lang.code() =~= seq!['n', 'o']);
        },
        Lang::Th => {
            reveal_strlit("th");
            assert(lang.code() =~= seq!['t', 'h']);
        },
        Lang::Ur => {
            reveal_strlit("ur");
            assert(lang.code() =~= seq!['u', 'r']);
        },
        Lang::Hr => {
            reveal_strlit("hr");
            assert(lang.code() =~= seq!['h', 'r']);
        },
        Lang::Bg => {
            reveal_strlit("bg");
            assert(lang.code() =~= seq!['b', 'g']);
        },
        Lang::Lt => {
            reveal_strlit("lt");
            assert(lang.code() =~= seq!['l', 't']);
        },
        Lang::La => {
            reveal_strlit("la");
            assert(lang.code() =~= seq!['l', 'a']);
        },
        Lang::Mi => {
            reveal_strlit("mi");
            assert(lang.code() =~= seq!['m', 'i']);
        },
        Lang::Ml => {
            reveal_strlit("ml");
            assert(lang.code() =~= seq!['m', 'l']);
        },
        Lang::Cy => {
            reveal_strlit("cy");
            assert(lang.code() =~= seq!['c', 'y']);
        },
        Lang::Sk => {
            reveal_strlit("sk");
            assert(lang.code() =~= seq!['s', 'k']);
        },
        Lang::Te => {
            reveal_strlit("te");
            assert(lang.code() =~= seq!['t', 'e']);
        },
        Lang::Fa => {
            reveal_strlit("fa");
            assert(lang.code() =~= seq!['f', 'a']);
        },
        Lang::Lv => {
            reveal_strlit("lv");
            assert(lang.code() =~= seq!['l', 'v']);
        },
        Lang::Bn => {
            reveal_strlit("bn");
            assert(lang.code() =~= seq!['b', 'n']);
        },
        Lang::Sr => {
            reveal_strlit("sr");
            assert(lang.code() =~= seq!['s', 'r']);
        },
        Lang::Az => {
            reveal_strlit("az");
            assert(lang.code() =~= seq!['a', 'z']);
        },
        Lang::Sl => {
            reveal_strlit("sl");
            assert(lang.code() =~= seq!['s', 'l']);
        },
        Lang::Kn => {
            reveal_strlit("kn");
            assert(lang.code() =~= seq!['k', 'n']);
        },
        Lang::Et => {
            reveal_strlit("et");
            assert(lang.code() =~= seq!['e', 't']);
        },
        Lang::Mk => {
            reveal_strlit("mk");
            assert(lang.code() =~= seq!['m', 'k']);
        },
        Lang::Br => {
            reveal_strlit("br");
            assert(lang.code() =~= seq!['b', 'r']);
        },
        Lang::Eu => {
            reveal_strlit("eu");
            assert(lang.code() =~= seq!['e', 'u']);
        },
        Lang::Is => {
            reveal_strlit("is");
            assert(lang.code() =~= seq!['i', 's']);
        },
        Lang::Hy => {
            reveal_strlit("hy");
            assert(lang.code() =~= seq!['h', 'y']);
        },
        Lang::Ne => {
            reveal_strlit("ne");
            assert(lang.code() =~= seq!['n', 'e']);
        },
        Lang::Mn => {
            reveal_strlit("mn");
            assert(lang.code() =~= seq!['m', 'n']);
        },
        Lang::Bs => {
            reveal_strlit("bs");
            assert(lang.code() =~= seq!['b', 's']);
        },
        Lang::Kk => {
            reveal_strlit("kk");
            assert(lang.code() =~= seq!['k', 'k']);
        },
        Lang::Sq => {
            reveal_strlit("sq");
            assert(lang.code() =~= seq!['s', 'q']);
        },
        Lang::Sw => {
            reveal_strlit("sw");
            assert(lang.code() =~= seq!['s', 'w']);
        },
        Lang::Gl => {
            reveal_strlit("gl");
            assert(lang.code() =~= seq!['g', 'l']);
        },
        Lang::Mr => {
            reveal_strlit("mr");
            assert(lang.code() =~= seq!['m', 'r']);
        },
        Lang::Pa => {
            reveal_strlit("pa");
            assert(lang.code() =~= seq!['p', 'a']);
        },
        Lang::Si => {
            reveal_strlit("si");
            assert(lang.code() =~= seq!['s', 'i']);
        },
        Lang::Km => {
            reveal_strlit("km");
            assert(lang.code() =~= seq!['k', 'm']);
        },
        Lang::Sn => {
            reveal_strlit("sn");
            assert(lang.code() =~= seq!['s', 'n']);
        },
        Lang::Yo => {
            reveal_strlit("yo");
            assert(lang.code() =~= seq!['y', 'o']);
        },
        Lang::So => {
            reveal_strlit("so");
            assert(lang.code() =~= seq!['s', 'o']);
        },
        Lang::Af => {
            reveal_strlit("af");
            assert(lang.code() =~= seq!['a', 'f']);
        },
        Lang::Oc => {
            reveal_strlit("oc");
            assert(lang.code() =~= seq!['o', 'c']);
        },
        Lang::Ka => {
            reveal_strlit("ka");
            assert(lang.code() =~= seq!['k', 'a']);
        },
        Lang::Be => {
            reveal_strlit("be");
            assert(lang.code() =~= seq!['b', 'e']);
        },
        Lang::Tg => {
            reveal_strlit("tg");
            assert(lang.code() =~= seq!['t', 'g']);
        },
        Lang::Sd => {
            reveal_strlit("sd");
            assert(lang.code() =~= seq!['s', 'd']);
        },
        Lang::Gu => {
            reveal_strlit("gu");
            assert(lang.code() =~= seq!['g', 'u']);
        },
        Lang::Am => {
            reveal_strlit("am");
            assert(lang.code() =~= seq!['a', 'm']);
        },
        Lang::Yi => {
            reveal_strlit("yi");
            assert(lang.code() =~= seq!['y', 'i']);
        },
        Lang::Lo => {
            reveal_strlit("lo");
            assert(lang.code() =~= seq!['l', 'o']);
        },
        Lang::Uz => {
            reveal_strlit("uz");
            assert(lang.code() =~= seq!['u', 'z']);
        },
        Lang::Fo => {
            reveal_strlit("fo");
            assert(lang.code() =~= seq!['f', 'o']);
        },
        Lang::Ht => {
            reveal_strlit("ht");
            assert(lang.code() =~= seq!['h', 't']);
        },
        Lang::Ps => {
            reveal_strlit("ps");
            assert(lang.code() =~= seq!['p', 's']);
        },
        Lang::Tk => {
            reveal_strlit("tk");
            assert(lang.code() =~= seq!['t', 'k']);
        },
        Lang::Nn => {
            reveal_strlit("nn");
            assert(lang.code() =~= seq!['n', 'n']);
        },
        Lang::Mt => {
            reveal_strlit("mt");
            assert(lang.code() =~= seq!['m', 't']);
        },
        Lang::Sa => {
            reveal_strlit("sa");
            assert(lang.code() =~= seq!['s', 'a']);
        },
        Lang::Lb => {
            reveal_strlit("lb");
            assert(lang.code() =~= seq!['l', 'b']);
        },
        Lang::My => {
            reveal_strlit("my");
            assert(lang.code() =~= seq!['m', 'y']);
        },
        Lang::Bo => {
            reveal_strlit("bo");
            assert(lang.code() =~= seq!['b', 'o']);
        },
        Lang::Tl => {
            reveal_strlit("tl");
            assert(lang.code() =~= seq!['t', 'l']);
        },
        Lang::Mg => {
            reveal_strlit("mg");
            assert(lang.code() =~= seq!['m', 'g']);
        },
        Lang::As => {
            reveal_strlit("as");
            assert(lang.code() =~= seq!['a', 's']);
        },
        Lang::Tt => {
            reveal_strlit("tt");
            assert(lang.code() =~= seq!['t', 't']);
        },
        Lang::Haw => {
            reveal_strlit("haw");
            assert(lang.code() =~= seq!['h', 'a', 'w']);
        },
        Lang::Ln => {
            reveal_strlit("ln");
            assert(lang.code() =~= seq!['l', 'n']);
        },
        Lang::Ha => {
            reveal_strlit("ha");
            assert(lang.code() =~= seq!['h', 'a']);
        },
        Lang::Ba => {
            reveal_strlit("ba");
            assert(lang.code() =~= seq!['b', 'a']);
        },
        Lang::Jw => {
            reveal_strlit("jw");
            assert(lang.code() =~= seq!['j', 'w']);
        },
        Lang::Su => {
            reveal_strlit("su");
            assert(lang.code() =~= seq!['s', 'u']);
        },
        Lang::Yue => {
            reveal_strlit("yue");
            assert(lang.code() =~= seq!['y', 'u', 'e']);
        },
        Lang::Other(_) => {},
    }
}

/// A code that a named language has is read as that language; any other is kept
/// as it is.
pub proof fn codes_are_read_by_name(code: Seq<char>, lang: Lang, named: Lang)
    requires
        Lang::reads_as(code, lang),
        named !is Other,
    ensures
        code == named.code() ==> lang == named,
        lang is Other ==> lang.code() == code && code != named.code(),
        lang !is Other ==> lang.code() == code,
{
    if code == named.code() {
        assert(Lang::named_code(code));
        named_codes_are_distinct(lang, named);
    }
}

/// Languages that read alike are the same, and the same languages read alike.
pub proof fn the_same_languages_have_the_same_code(a: Lang, b: Lang)
    requires
        a.canonical(),
        b.canonical(),
    ensures
        a.same(b) <==> a.code() == b.code(),
{
    if a.code() == b.code() {
        if a !is Other {
            assert(Lang::named_code(a.code()));
        }
        if b !is Other {
            assert(Lang::named_code(b.code()));
        }
        if a !is Other && b !is Other {
            named_codes_are_distinct(a, b);
        }
    }
}

/// Reading back the code of a canonical language gives that language.
pub proof fn codes_round_trip(lang: Lang, read_back: Lang)
    requires
        lang.canonical(),
        Lang::reads_as(lang.code(), read_back),
    ensures
        read_back.same(lang),
        lang !is Other ==> read_back == lang,
{
    if lang !is Other {
        assert(Lang::named_code(lang.code()));
        named_codes_are_distinct(read_back, lang);
    }
}

/// Reading a code gives a canonical language.
pub proof fn read_languages_are_canonical(code: Seq<char>, lang: Lang)
    requires
        Lang::reads_as(code, lang),
    ensures
        lang.canonical(),
{
}

impl Clone for Lang {
    fn clone(&self) -> (copy: Lang)
        ensures
            copy == *self,
    {
        match self {
            Lang::En => Lang::En,
            Lang::Zh => Lang::Zh,
            Lang::De => Lang::De,
            Lang::Es => Lang::Es,
            Lang::Ru => Lang::Ru,
            Lang::Ko => Lang::Ko,
            Lang::Fr => Lang::Fr,
            Lang::Ja => Lang::Ja,
            Lang::Pt => Lang::Pt,
            Lang::Tr => Lang::Tr,
            Lang::Pl => Lang::Pl,
            Lang::Ca => Lang::Ca,
            Lang::Nl => Lang::Nl,
            Lang::Ar => Lang::Ar,
            Lang::Sv => Lang::Sv,
            Lang::It => Lang::It,
            Lang::Id => Lang::Id,
            Lang::Hi => Lang::Hi,
            Lang::Fi => Lang::Fi,
            Lang::Vi => Lang::Vi,
            Lang::He => Lang::He,
            Lang::Uk => Lang::Uk,
            Lang::El => Lang::El,
            Lang::Ms => Lang::Ms,
            Lang::Cs => Lang::Cs,
            Lang::Ro => Lang::Ro,
            Lang::Da => Lang::Da,
            Lang::Hu => Lang::Hu,
            Lang::Ta => Lang::Ta,
            Lang::No => Lang::No,
            Lang::Th => Lang::Th,
            Lang::Ur => Lang::Ur,
            Lang::Hr => Lang::Hr,
            Lang::Bg => Lang::Bg,
            Lang::Lt => Lang::Lt,
            Lang::La => Lang::La,
            Lang::Mi => Lang::Mi,
            Lang::Ml => Lang::Ml,
            Lang::Cy => Lang::Cy,
            Lang::Sk => Lang::Sk,
            Lang::Te => Lang::Te,
            Lang::Fa => Lang::Fa,
            Lang::Lv => Lang::Lv,
            Lang::Bn => Lang::Bn,
            Lang::Sr => Lang::Sr,
            Lang::Az => Lang::Az,
            Lang::Sl => Lang::Sl,
            Lang::Kn => Lang::Kn,
            Lang::Et => Lang::Et,
            Lang::Mk => Lang::Mk,
            Lang::Br => Lang::Br,
            Lang::Eu => Lang::Eu,
            Lang::Is => Lang::Is,
            Lang::Hy => Lang::Hy,
            Lang::Ne => Lang::Ne,
            Lang::Mn => Lang::Mn,
            Lang::Bs => Lang::Bs,
            Lang::Kk => Lang::Kk,
            Lang::Sq => Lang::Sq,
            Lang::Sw => Lang::Sw,
            Lang::Gl => Lang::Gl,
            Lang::Mr => Lang::Mr,
            Lang::Pa => Lang::Pa,
            Lang::Si => Lang::Si,
            Lang::Km => Lang::Km,
            Lang::Sn => Lang::Sn,
            Lang::Yo => Lang::Yo,
            Lang::So => Lang::So,
            Lang::Af => Lang::Af,
            Lang::Oc => Lang::Oc,
            Lang::Ka => Lang::Ka,
            Lang::Be => Lang::Be,
            Lang::Tg => Lang::Tg,
            Lang::Sd => Lang::Sd,
            Lang::Gu => Lang::Gu,
            Lang::Am => Lang::Am,
            Lang::Yi => Lang::Yi,
            Lang::Lo => Lang::Lo,
            Lang::Uz => Lang::Uz,
            Lang::Fo => Lang::Fo,
            Lang::Ht => Lang::Ht,
            Lang::Ps => Lang::Ps,
            Lang::Tk => Lang::Tk,
            Lang::Nn => Lang::Nn,
            Lang::Mt => Lang::Mt,
            Lang::Sa => Lang::Sa,
            Lang::Lb => Lang::Lb,
            Lang::My => Lang::My,
            Lang::Bo => Lang::Bo,
            Lang::Tl => Lang::Tl,
            Lang::Mg => Lang::Mg,
            Lang::As => Lang::As,
            Lang::Tt => Lang::Tt,
            Lang::Haw => Lang::Haw,
            Lang::Ln => Lang::Ln,
            Lang::Ha => Lang::Ha,
            Lang::Ba => Lang::Ba,
            Lang::Jw => Lang::Jw,
            Lang::Su => Lang::Su,
            Lang::Yue => Lang::Yue,
            Lang::Other(s) => Lang::Other(s.clone()),
        }
    }
}

impl PartialEq for Lang {
    fn eq(&self, other: &Lang) -> (equal: bool) {
        let self_other: bool = matches!(self, Lang::Other(_));
        let other_other: bool = matches!(other, Lang::Other(_));
        proof {
            if !self_other && !other_other && self.code() == other.code() {
                named_codes_are_distinct(*self, *other);
            }
        }
        self_other == other_other && text::str_eq(self.as_str(), other.as_str())
    }
}

impl vstd::std_specs::cmp::PartialEqSpecImpl for Lang {
    open spec fn obeys_eq_spec() -> bool {
        true
    }

    open spec fn eq_spec(&self, other: &Lang) -> bool {
        self.same(*other)
    }
}

} // verus!
