//! Kana conversion and character classes, as the `wana_kana` crate has them.

use vstd::prelude::*;

verus! {

/// What `wana_kana` makes of a text when it converts it to hiragana.
pub uninterp spec fn hiragana_of(text: Seq<char>) -> Seq<char>;

/// What `wana_kana` makes of a text when it converts it to katakana.
pub uninterp spec fn katakana_of(text: Seq<char>) -> Seq<char>;

/// The range of code points that `wana_kana` counts as kanji.
pub open spec fn is_kanji_char(c: char) -> bool {
    0x4E00 <= c as int <= 0x9FAF
}

/// Whether some character of `text` is a kanji.
pub open spec fn has_kanji(text: Seq<char>) -> bool {
    exists|i: int| 0 <= i < text.len() && is_kanji_char(#[trigger] text[i])
}

/// The halfwidth voiced and semi-voiced sound marks, U+FF9E and U+FF9F.
pub open spec fn is_sound_mark(c: char) -> bool {
    c as int == 0xFF9E || c as int == 0xFF9F
}

/// The halfwidth katakana that take the voiced sound mark: ｳ, ｶ to ﾄ and
/// ﾊ to ﾎ.
pub open spec fn takes_voiced_mark(c: char) -> bool {
    let code = c as int;
    code == 0xFF73 || 0xFF76 <= code <= 0xFF84 || 0xFF8A <= code <= 0xFF8E
}

/// The halfwidth katakana that take the semi-voiced sound mark: ﾊ to ﾎ.
pub open spec fn takes_semi_voiced_mark(c: char) -> bool {
    0xFF8A <= c as int <= 0xFF8E
}

/// Whether the halfwidth katakana `base` takes the sound mark `mark`.
pub open spec fn takes_mark(base: char, mark: char) -> bool {
    (mark as int == 0xFF9E && takes_voiced_mark(base)) || (mark as int == 0xFF9F
        && takes_semi_voiced_mark(base))
}

/// A text that can be converted to hiragana: one in which every halfwidth
/// sound mark directly follows a halfwidth katakana that takes it.
pub open spec fn convertible(text: Seq<char>) -> bool {
    forall|i: int|
        0 <= i < text.len() && is_sound_mark(#[trigger] text[i]) ==> i > 0 && takes_mark(text[i - 1], text[i])
}

/// `wana_kana::ConvertJapanese::to_hiragana` on a string slice. The
/// conversion works from the text alone, by fixed tables: katakana becomes
/// hiragana, romaji is read as kana, other characters pass. The contract
/// only gives the result its name.
///
/// The tables hold a halfwidth sound mark only behind the halfwidth
/// katakana that take it: the voiced mark behind ｳ, ｶ to ﾄ and ﾊ to ﾎ, the
/// semi-voiced mark behind ﾊ to ﾎ. A mark that stands directly behind such
/// a katakana is read together with it. On any other mark the conversion
/// does not return; texts with such a mark are left out.
#[verifier::external_body]
pub(crate) fn to_hiragana(text: &str) -> (r: String)
    requires
        convertible(text@),
    ensures
        r@ == hiragana_of(text@),
{
    wana_kana::ConvertJapanese::to_hiragana(text)
}

/// Whether the halfwidth katakana `base` takes the sound mark `mark`.
fn mark_fits(base: char, mark: char) -> (r: bool)
    ensures
        r == takes_mark(base, mark),
{
    let b = base as u32;
    let voiced = b == 0xFF73 || (0xFF76 <= b && b <= 0xFF84) || (0xFF8A <= b && b <= 0xFF8E);
    let semi_voiced = 0xFF8A <= b && b <= 0xFF8E;
    (mark == '\u{FF9E}' && voiced) || (mark == '\u{FF9F}' && semi_voiced)
}

/// Whether `text` can be converted to hiragana.
pub fn is_convertible(text: &str) -> (r: bool)
    ensures
        r == convertible(text@),
{
    let mut before: Option<char> = None;
    for c in it: text.chars()
        invariant
            it.seq() == text@,
            before == if it.index() > 0 {
                Some(text@[it.index() - 1])
            } else {
                None::<char>
            },
            forall|j: int|
                0 <= j < it.index() && is_sound_mark(#[trigger] text@[j]) ==> j > 0 && takes_mark(
                    text@[j - 1],
                    text@[j],
                ),
    {
        if c == '\u{FF9E}' || c == '\u{FF9F}' {
            let fits = match before {
                Some(base) => mark_fits(base, c),
                None => false,
            };
            if !fits {
                assert(is_sound_mark(text@[it.index() as int]));
                return false;
            }
        }
        before = Some(c);
    }
    true
}

/// `text` converted to hiragana, if it can be converted.
pub fn hiragana(text: &str) -> (r: Option<String>)
    ensures
        match r {
            Some(h) => convertible(text@) && h@ == hiragana_of(text@),
            None => !convertible(text@),
        },
{
    if is_convertible(text) {
        Some(to_hiragana(text))
    } else {
        None
    }
}

/// `wana_kana::ConvertJapanese::to_katakana` on a string slice. The
/// conversion works from the text alone, by fixed tables: hiragana becomes
/// katakana, romaji is read as kana, other characters pass. The contract
/// only gives the result its name.
#[verifier::external_body]
pub(crate) fn to_katakana(text: &str) -> (r: String)
    ensures
        r@ == katakana_of(text@),
{
    wana_kana::ConvertJapanese::to_katakana(text)
}

/// `wana_kana::IsJapaneseChar::is_kanji` on a character: whether its code
/// point lies in the range U+4E00 to U+9FAF, both ends included.
#[verifier::external_body]
pub(crate) fn is_kanji(c: char) -> (r: bool)
    ensures
        r == is_kanji_char(c),
{
    wana_kana::IsJapaneseChar::is_kanji(&c)
}

/// Whether some character of `text` is a kanji.
pub fn contains_kanji(text: &str) -> (r: bool)
    ensures
        r == has_kanji(text@),
{
    for c in it: text.chars()
        invariant
            it.seq() == text@,
            forall|j: int| 0 <= j < it.index() ==> !is_kanji_char(#[trigger] text@[j]),
    {
        if is_kanji(c) {
            assert(is_kanji_char(text@[it.index() as int]));
            return true;
        }
    }
    false
}

} // verus!
