//! The frequency corpus: which written forms and readings are common, as
//! the `jmdict` crate has them.

use vstd::prelude::*;
use crate::dictionary::{frequency_views, FrequencyEntry, FrequencyView};

verus! {

/// A written form or a reading of a word, and whether it is common.
#[derive(Debug)]
pub struct Element {
    pub text: String,
    pub common: bool,
}

/// The written forms and the readings of one word.
#[derive(Debug)]
pub struct WordForms {
    pub kanji: Vec<Element>,
    pub readings: Vec<Element>,
}

/// An `Element` as plain values.
pub struct ElementView {
    pub text: Seq<char>,
    pub common: bool,
}

/// A `WordForms` as plain values.
pub struct WordView {
    pub kanji: Seq<ElementView>,
    pub readings: Seq<ElementView>,
}

impl View for Element {
    type V = ElementView;

    open spec fn view(&self) -> ElementView {
        ElementView { text: self.text@, common: self.common }
    }
}

/// The views of a list of elements.
pub open spec fn element_views(elements: Seq<Element>) -> Seq<ElementView> {
    elements.map_values(|e: Element| e@)
}

impl View for WordForms {
    type V = WordView;

    open spec fn view(&self) -> WordView {
        WordView { kanji: element_views(self.kanji@), readings: element_views(self.readings@) }
    }
}

/// The views of a list of words.
pub open spec fn word_views(words: Seq<WordForms>) -> Seq<WordView> {
    words.map_values(|w: WordForms| w@)
}

/// The frequency entry of a written form with a reading.
pub open spec fn pair(kanji: ElementView, reading: ElementView) -> FrequencyView {
    FrequencyView {
        text: kanji.text,
        text_is_common: kanji.common,
        reading: reading.text,
        reading_is_common: reading.common,
    }
}

/// The frequency entries of a written form with each of the readings, in
/// the order of the readings.
pub open spec fn pairs_with(kanji: ElementView, readings: Seq<ElementView>) -> Seq<FrequencyView> {
    readings.map_values(|r: ElementView| pair(kanji, r))
}

/// The frequency entries of the first `n` written forms of a word: each
/// written form with each reading, written form by written form.
pub open spec fn word_pairs(word: WordView, n: int) -> Seq<FrequencyView>
    decreases n,
{
    if n <= 0 {
        Seq::empty()
    } else {
        word_pairs(word, n - 1) + pairs_with(word.kanji[n - 1], word.readings)
    }
}

/// The frequency entries of the first `n` words, word by word.
pub open spec fn pairs(words: Seq<WordView>, n: int) -> Seq<FrequencyView>
    decreases n,
{
    if n <= 0 {
        Seq::empty()
    } else {
        pairs(words, n - 1) + word_pairs(words[n - 1], words[n - 1].kanji.len() as int)
    }
}

/// `jmdict::entries`, and for each entry `jmdict::Entry::kanji_elements` and
/// `jmdict::Entry::reading_elements`, each element with its text and with
/// what `jmdict_enums::Priority::is_common` says of its priority. The
/// entries are those of the database that the crate was built with.
/// Nothing is claimed of them.
#[verifier::external_body]
pub(crate) fn jmdict_entries() -> Vec<WordForms> {
    jmdict::entries().map(
        |e| WordForms {
            kanji: e.kanji_elements().map(
                |k| Element { text: k.text.to_string(), common: k.priority.is_common() },
            ).collect(),
            readings: e.reading_elements().map(
                |r| Element { text: r.text.to_string(), common: r.priority.is_common() },
            ).collect(),
        },
    ).collect()
}

/// The frequency entries of a list of words: for each word, each of its
/// written forms with each of its readings.
pub fn frequency_pairs(words: &[WordForms]) -> (r: Vec<FrequencyEntry>)
    ensures
        frequency_views(r@) == pairs(word_views(words@), words@.len() as int),
{
    let ghost all = word_views(words@);
    let mut r: Vec<FrequencyEntry> = Vec::new();
    let mut w: usize = 0;
    assert(frequency_views(r@) =~= pairs(all, 0));
    while w < words.len()
        invariant
            0 <= w <= words@.len(),
            all == word_views(words@),
            frequency_views(r@) == pairs(all, w as int),
        decreases words@.len() - w,
    {
        let word = &words[w];
        assert(all[w as int] == word@);
        let ghost done = frequency_views(r@);
        let mut k: usize = 0;
        assert(done + word_pairs(word@, 0) =~= done);
        while k < word.kanji.len()
            invariant
                0 <= k <= word.kanji@.len(),
                frequency_views(r@) == done + word_pairs(word@, k as int),
            decreases word.kanji@.len() - k,
        {
            let kanji = &word.kanji[k];
            assert(word@.kanji[k as int] == kanji@);
            let ghost before = frequency_views(r@);
            let mut i: usize = 0;
            assert(before + pairs_with(kanji@, word@.readings).take(0) =~= before);
            while i < word.readings.len()
                invariant
                    0 <= i <= word.readings@.len(),
                    frequency_views(r@) == before + pairs_with(kanji@, word@.readings).take(i as int),
                decreases word.readings@.len() - i,
            {
                let reading = &word.readings[i];
                assert(word@.readings[i as int] == reading@);
                let ghost so_far = frequency_views(r@);
                r.push(
                    FrequencyEntry {
                        kanji_element: kanji.text.clone(),
                        kanji_common: kanji.common,
                        reading_element: reading.text.clone(),
                        reading_common: reading.common,
                    },
                );
                assert(frequency_views(r@) =~= so_far.push(pair(kanji@, reading@)));
                i += 1;
                assert(before + pairs_with(kanji@, word@.readings).take(i as int) =~= so_far.push(
                    pair(kanji@, reading@),
                ));
            }
            assert(pairs_with(kanji@, word@.readings).take(word.readings@.len() as int) =~= pairs_with(
                kanji@,
                word@.readings,
            ));
            k += 1;
            assert(done + (word_pairs(word@, k - 1) + pairs_with(kanji@, word@.readings)) =~= before
                + pairs_with(kanji@, word@.readings));
        }
        w += 1;
    }
    r
}

/// The frequency corpus of JMdict: each written form of each of its words
/// with each reading of the word.
pub fn frequency_entries() -> (r: Vec<FrequencyEntry>)
    ensures
        exists|words: Seq<WordView>| frequency_views(r@) == #[trigger] pairs(words, words.len() as int),
{
    let words = jmdict_entries();
    let r = frequency_pairs(words.as_slice());
    assert(frequency_views(r@) == pairs(word_views(words@), word_views(words@).len() as int));
    r
}

} // verus!
