//! Classification of characters by script.
//!
//! Kana and Hangul name their language. Han characters are read by the company
//! they keep in their segment. Latin letters, and letters of scripts that many
//! languages share, are read by the language hint.

use vstd::prelude::*;

use crate::lang::Lang;

verus! {

/// What a character says about the language of the text around it.
#[derive(Debug)]
pub enum CharClass {
    /// Nothing: it belongs to whatever run it stands in.
    Carry,
    /// It is written in this language.
    Lang(Lang),
}

/// Which scripts a segment holds.
#[derive(Clone, Copy, Debug, PartialEq, Eq, Structural)]
pub struct SegmentContext {
    /// Some character is kana.
    pub has_kana: bool,
    /// Some character is Hangul.
    pub has_hangul: bool,
}

/// Whether a character counts as a letter, by Unicode's `Alphabetic` property.
pub uninterp spec fn alphabetic(c: char) -> bool;

/// Calls `char::is_alphabetic`, a fixed property of the character.
#[verifier::external_body]
fn is_alphabetic(c: char) -> (letter: bool)
    ensures
        letter == alphabetic(c),
{
    c.is_alphabetic()
}

/// Hiragana and katakana, half-width katakana among them.
pub open spec fn kana(c: char) -> bool {
    let u = c as int;
    ||| 0x3041 <= u <= 0x3096
    ||| 0x309d <= u <= 0x309f
    ||| 0x30a1 <= u <= 0x30fa
    ||| 0x30fc <= u <= 0x30ff
    ||| 0x31f0 <= u <= 0x31ff
    ||| 0xff66 <= u <= 0xff9d
}

/// Hangul syllables and jamo.
pub open spec fn hangul(c: char) -> bool {
    let u = c as int;
    ||| 0x1100 <= u <= 0x11ff
    ||| 0x3131 <= u <= 0x318e
    ||| 0xa960 <= u <= 0xa97c
    ||| 0xac00 <= u <= 0xd7a3
    ||| 0xd7b0 <= u <= 0xd7fb
}

/// Unified and compatibility ideographs, and the iteration mark and zero that
/// stand among them.
pub open spec fn han(c: char) -> bool {
    let u = c as int;
    ||| u == 0x3005
    ||| u == 0x3007
    ||| 0x3400 <= u <= 0x4dbf
    ||| 0x4e00 <= u <= 0x9fff
    ||| 0xf900 <= u <= 0xfaff
    ||| 0x20000 <= u <= 0x2fa1f
    ||| 0x30000 <= u <= 0x323af
}

/// Latin letters, with diacritics or without.
pub open spec fn latin(c: char) -> bool {
    let u = c as int;
    ||| 0x41 <= u <= 0x5a
    ||| 0x61 <= u <= 0x7a
    ||| u == 0xaa
    ||| u == 0xba
    ||| 0xc0 <= u <= 0xd6
    ||| 0xd8 <= u <= 0xf6
    ||| 0xf8 <= u <= 0x24f
    ||| 0x1e00 <= u <= 0x1eff
}

fn is_kana(c: char) -> (r: bool)
    ensures
        r == kana(c),
{
    let u: u32 = c as u32;
    (0x3041 <= u && u <= 0x3096) || (0x309d <= u && u <= 0x309f) || (0x30a1 <= u && u <= 0x30fa)
        || (0x30fc <= u && u <= 0x30ff) || (0x31f0 <= u && u <= 0x31ff) || (0xff66 <= u && u
        <= 0xff9d)
}

fn is_hangul(c: char) -> (r: bool)
    ensures
        r == hangul(c),
{
    let u: u32 = c as u32;
    (0x1100 <= u && u <= 0x11ff) || (0x3131 <= u && u <= 0x318e) || (0xa960 <= u && u <= 0xa97c)
        || (0xac00 <= u && u <= 0xd7a3) || (0xd7b0 <= u && u <= 0xd7fb)
}

fn is_han(c: char) -> (r: bool)
    ensures
        r == han(c),
{
    let u: u32 = c as u32;
    u == 0x3005 || u == 0x3007 || (0x3400 <= u && u <= 0x4dbf) || (0x4e00 <= u && u <= 0x9fff) || (
    0xf900 <= u && u <= 0xfaff) || (0x20000 <= u && u <= 0x2fa1f) || (0x30000 <= u && u <= 0x323af)
}

fn is_latin(c: char) -> (r: bool)
    ensures
        r == latin(c),
{
    let u: u32 = c as u32;
    (0x41 <= u && u <= 0x5a) || (0x61 <= u && u <= 0x7a) || u == 0xaa || u == 0xba || (0xc0 <= u
        && u <= 0xd6) || (0xd8 <= u && u <= 0xf6) || (0xf8 <= u && u <= 0x24f) || (0x1e00 <= u && u
        <= 0x1eff)
}

/// The language is written in the Latin script.
pub open spec fn latin_language(lang: Lang) -> bool {
    match lang {
        Lang::En | Lang::De | Lang::Es | Lang::Fr | Lang::Pt | Lang::Tr | Lang::Pl | Lang::Ca
        | Lang::Nl | Lang::Sv | Lang::It | Lang::Id | Lang::Fi | Lang::Vi | Lang::Ms | Lang::Cs
        | Lang::Ro | Lang::Da | Lang::Hu | Lang::No | Lang::Hr | Lang::Lt | Lang::La | Lang::Mi
        | Lang::Cy | Lang::Sk | Lang::Lv | Lang::Az | Lang::Sl | Lang::Et | Lang::Br | Lang::Eu
        | Lang::Is | Lang::Bs | Lang::Sq | Lang::Sw | Lang::Gl | Lang::Sn | Lang::Yo | Lang::So
        | Lang::Af | Lang::Oc | Lang::Uz | Lang::Fo | Lang::Ht | Lang::Tk | Lang::Nn | Lang::Mt
        | Lang::Lb | Lang::Tl | Lang::Mg | Lang::Haw | Lang::Ln | Lang::Ha | Lang::Jw
        | Lang::Su => true,
        _ => false,
    }
}

fn is_latin_language(lang: &Lang) -> (r: bool)
    ensures
        r == latin_language(*lang),
{
    match lang {
        Lang::En | Lang::De | Lang::Es | Lang::Fr | Lang::Pt | Lang::Tr | Lang::Pl | Lang::Ca
        | Lang::Nl | Lang::Sv | Lang::It | Lang::Id | Lang::Fi | Lang::Vi | Lang::Ms | Lang::Cs
        | Lang::Ro | Lang::Da | Lang::Hu | Lang::No | Lang::Hr | Lang::Lt | Lang::La | Lang::Mi
        | Lang::Cy | Lang::Sk | Lang::Lv | Lang::Az | Lang::Sl | Lang::Et | Lang::Br | Lang::Eu
        | Lang::Is | Lang::Bs | Lang::Sq | Lang::Sw | Lang::Gl | Lang::Sn | Lang::Yo | Lang::So
        | Lang::Af | Lang::Oc | Lang::Uz | Lang::Fo | Lang::Ht | Lang::Tk | Lang::Nn | Lang::Mt
        | Lang::Lb | Lang::Tl | Lang::Mg | Lang::Haw | Lang::Ln | Lang::Ha | Lang::Jw
        | Lang::Su => true,
        _ => false,
    }
}

/// The scripts of a text.
pub open spec fn context_of(chars: Seq<char>) -> SegmentContext {
    SegmentContext {
        has_kana: exists|i: int| 0 <= i < chars.len() && kana(#[trigger] chars[i]),
        has_hangul: exists|i: int| 0 <= i < chars.len() && hangul(#[trigger] chars[i]),
    }
}

/// The class of a character in a segment, given the language hint.
///
/// - Kana is Japanese, Hangul is Korean.
/// - Han is Japanese where the segment holds kana, else Korean where it holds
///   Hangul, else Chinese.
/// - Latin letters are in the hinted language if that is written in Latin
///   script, else in English.
/// - Other letters are in the hinted language; without a hint, and for digits,
///   punctuation and whitespace, the character is carried.
pub open spec fn class_of(c: char, ctx: SegmentContext, hint: Option<Lang>) -> CharClass {
    if kana(c) {
        CharClass::Lang(Lang::Ja)
    } else if hangul(c) {
        CharClass::Lang(Lang::Ko)
    } else if han(c) {
        CharClass::Lang(
            if ctx.has_kana {
                Lang::Ja
            } else if ctx.has_hangul {
                Lang::Ko
            } else {
                Lang::Zh
            },
        )
    } else if latin(c) {
        match hint {
            Some(lang) => CharClass::Lang(
                if latin_language(lang) {
                    lang
                } else {
                    Lang::En
                },
            ),
            None => CharClass::Lang(Lang::En),
        }
    } else if alphabetic(c) {
        match hint {
            Some(lang) => CharClass::Lang(lang),
            None => CharClass::Carry,
        }
    } else {
        CharClass::Carry
    }
}

/// Which code points name a language by themselves: a character of the Japanese
/// syllabaries is Japanese and one of the Korean alphabet is Korean, whatever
/// stands around it and whatever the hint.
pub proof fn kana_and_hangul_name_their_language(c: char, ctx: SegmentContext, hint: Option<Lang>)
    ensures
        '\u{3041}' <= c <= '\u{3096}' || '\u{309d}' <= c <= '\u{309f}' || '\u{30a1}' <= c
            <= '\u{30fa}' || '\u{30fc}' <= c <= '\u{30ff}' || '\u{31f0}' <= c <= '\u{31ff}'
            || '\u{ff66}' <= c <= '\u{ff9d}' ==> class_of(c, ctx, hint) == CharClass::Lang(
            Lang::Ja,
        ),
        '\u{1100}' <= c <= '\u{11ff}' || '\u{3131}' <= c <= '\u{318e}' || '\u{a960}' <= c
            <= '\u{a97c}' || '\u{ac00}' <= c <= '\u{d7a3}' || '\u{d7b0}' <= c <= '\u{d7fb}'
            ==> class_of(c, ctx, hint) == CharClass::Lang(Lang::Ko),
{
}

/// An ideograph is read by the company it keeps in its text: as Japanese where
/// a character of a Japanese syllabary occurs, else as Korean where a Korean
/// letter occurs, else as Chinese, whatever the hint.
pub proof fn ideographs_follow_their_company(chars: Seq<char>, i: int, hint: Option<Lang>)
    requires
        0 <= i < chars.len(),
        ({
            let c = chars[i];
            ||| c == '\u{3005}' || c == '\u{3007}'
            ||| '\u{3400}' <= c <= '\u{4dbf}' || '\u{4e00}' <= c <= '\u{9fff}'
            ||| '\u{f900}' <= c <= '\u{faff}'
            ||| '\u{20000}' <= c <= '\u{2fa1f}' || '\u{30000}' <= c <= '\u{323af}'
        }),
    ensures
        ({
            let japanese = exists|j: int|
                0 <= j < chars.len() && ({
                    let c = #[trigger] chars[j];
                    '\u{3041}' <= c <= '\u{3096}' || '\u{309d}' <= c <= '\u{309f}' || '\u{30a1}'
                        <= c <= '\u{30fa}' || '\u{30fc}' <= c <= '\u{30ff}' || '\u{31f0}' <= c
                        <= '\u{31ff}' || '\u{ff66}' <= c <= '\u{ff9d}'
                });
            let korean = exists|j: int|
                0 <= j < chars.len() && ({
                    let c = #[trigger] chars[j];
                    '\u{1100}' <= c <= '\u{11ff}' || '\u{3131}' <= c <= '\u{318e}' || '\u{a960}'
                        <= c <= '\u{a97c}' || '\u{ac00}' <= c <= '\u{d7a3}' || '\u{d7b0}' <= c
                        <= '\u{d7fb}'
                });
            let class = class_of(chars[i], context_of(chars), hint);
            &&& japanese ==> class == CharClass::Lang(Lang::Ja)
            &&& !japanese && korean ==> class == CharClass::Lang(Lang::Ko)
            &&& !japanese && !korean ==> class == CharClass::Lang(Lang::Zh)
        }),
{
    let ctx = context_of(chars);
    if ctx.has_kana {
        let j = choose|j: int| 0 <= j < chars.len() && kana(#[trigger] chars[j]);
        assert(kana(chars[j]));
    }
    if ctx.has_hangul {
        let j = choose|j: int| 0 <= j < chars.len() && hangul(#[trigger] chars[j]);
        assert(hangul(chars[j]));
    }
    assert forall|j: int| 0 <= j < chars.len() && !ctx.has_kana implies !kana(
        #[trigger] chars[j],
    ) by {}
    assert forall|j: int| 0 <= j < chars.len() && !ctx.has_hangul implies !hangul(
        #[trigger] chars[j],
    ) by {}
}

/// A Latin letter is never carried and never given to a language of another
/// script: it is in the hinted language if that is written in Latin letters,
/// and in English if the hint is one of the languages with a script of their
/// own, is a code without a name, or is missing.
pub proof fn latin_letters_follow_a_latin_hint(c: char, ctx: SegmentContext, hint: Option<Lang>)
    requires
        ({
            ||| 'A' <= c <= 'Z' || 'a' <= c <= 'z'
            ||| c == '\u{aa}' || c == '\u{ba}'
            ||| '\u{c0}' <= c <= '\u{24f}' && c != '\u{d7}' && c != '\u{f7}'
            ||| '\u{1e00}' <= c <= '\u{1eff}'
        }),
    ensures
        class_of(c, ctx, hint) == CharClass::Lang(
            match hint {
                Some(
                    Lang::Zh | Lang::Ru | Lang::Ko | Lang::Ja | Lang::Ar | Lang::Hi | Lang::He
                    | Lang::Uk | Lang::El | Lang::Ta | Lang::Th | Lang::Ur | Lang::Bg | Lang::Ml
                    | Lang::Te | Lang::Fa | Lang::Bn | Lang::Sr | Lang::Kn | Lang::Mk | Lang::Hy
                    | Lang::Ne | Lang::Mn | Lang::Kk | Lang::Mr | Lang::Pa | Lang::Si | Lang::Km
                    | Lang::Ka | Lang::Be | Lang::Tg | Lang::Sd | Lang::Gu | Lang::Am | Lang::Yi
                    | Lang::Lo | Lang::Ps | Lang::Sa | Lang::My | Lang::Bo | Lang::As | Lang::Tt
                    | Lang::Ba | Lang::Yue | Lang::Other(_),
                ) => Lang::En,
                Some(lang) => lang,
                None => Lang::En,
            },
        ),
{
}

/// A character outside the Japanese, Korean, Chinese and Latin scripts is in
/// the hinted language if it is a letter and there is a hint; else it says
/// nothing.
pub proof fn other_letters_follow_the_hint(c: char, ctx: SegmentContext, hint: Option<Lang>)
    requires
        ({
            ||| c < 'A' || 'Z' < c < 'a' || 'z' < c < '\u{aa}' || '\u{aa}' < c < '\u{ba}'
            ||| '\u{ba}' < c < '\u{c0}' || c == '\u{d7}' || c == '\u{f7}'
            ||| '\u{24f}' < c < '\u{1100}' || '\u{11ff}' < c < '\u{1e00}'
            ||| '\u{1eff}' < c < '\u{3005}' || c == '\u{3006}' || '\u{3007}' < c < '\u{3041}'
            ||| '\u{3096}' < c < '\u{309d}' || c == '\u{30a0}' || c == '\u{30fb}'
            ||| '\u{30ff}' < c < '\u{3131}' || '\u{318e}' < c < '\u{31f0}'
            ||| '\u{31ff}' < c < '\u{3400}' || '\u{4dbf}' < c < '\u{4e00}'
            ||| '\u{9fff}' < c < '\u{a960}' || '\u{a97c}' < c < '\u{ac00}'
            ||| '\u{d7a3}' < c < '\u{d7b0}' || '\u{d7fb}' < c < '\u{f900}'
            ||| '\u{faff}' < c < '\u{ff66}' || '\u{ff9d}' < c < '\u{20000}'
            ||| '\u{2fa1f}' < c < '\u{30000}' || '\u{323af}' < c
        }),
    ensures
        alphabetic(c) && hint is Some ==> class_of(c, ctx, hint) == CharClass::Lang(hint->0),
        !alphabetic(c) || hint is None ==> class_of(c, ctx, hint) is Carry,
{
}

impl SegmentContext {
    /// The scripts that a segment's text holds.
    pub fn from_text(text: &str) -> (ctx: SegmentContext)
        ensures
            ctx == context_of(text@),
    {
        let mut has_kana: bool = false;
        let mut has_hangul: bool = false;
        for c in it: text.chars()
            invariant
                it.seq() == text@,
                has_kana == exists|i: int|
                    0 <= i < it.index() && kana(#[trigger] text@[i]),
                has_hangul == exists|i: int|
                    0 <= i < it.index() && hangul(#[trigger] text@[i]),
        {
            assert(c == text@[it.index()]);
            has_kana = has_kana || is_kana(c);
            has_hangul = has_hangul || is_hangul(c);
        }
        SegmentContext { has_kana, has_hangul }
    }
}

/// The class of a character in a segment, given the language hint.
pub fn script_to_lang(c: char, ctx: SegmentContext, hint: Option<&Lang>) -> (class: CharClass)
    ensures
        class == class_of(
            c,
            ctx,
            match hint {
                Some(lang) => Some(*lang),
                None => None,
            },
        ),
{
    if is_kana(c) {
        CharClass::Lang(Lang::Ja)
    } else if is_hangul(c) {
        CharClass::Lang(Lang::Ko)
    } else if is_han(c) {
        if ctx.has_kana {
            CharClass::Lang(Lang::Ja)
        } else if ctx.has_hangul {
            CharClass::Lang(Lang::Ko)
        } else {
            CharClass::Lang(Lang::Zh)
        }
    } else if is_latin(c) {
        match hint {
            Some(lang) => if is_latin_language(lang) {
                CharClass::Lang(lang.clone())
            } else {
                CharClass::Lang(Lang::En)
            },
            None => CharClass::Lang(Lang::En),
        }
    } else if is_alphabetic(c) {
        match hint {
            Some(lang) => CharClass::Lang(lang.clone()),
            None => CharClass::Carry,
        }
    } else {
        CharClass::Carry
    }
}

} // verus!
