//! The dictionary index: entries ordered by (text, reading), with exact and
//! prefix lookup.

use vstd::prelude::*;
use crate::order::{
    lemma_nothing_before_empty, lemma_precedes_asymmetric, lemma_precedes_total,
    lemma_precedes_transitive, lemma_prefix_block, lemma_prefix_not_after, order_of, precedes,
    Order,
};
use crate::filtering::{lemma_filter_block, lemma_filter_contains, lemma_filter_refines};
use crate::index::{index_of, lemma_collected_ordered};
use crate::parse;
use crate::parse::{entry_line, whole_line};
use crate::text::{chars_of, equals_chars, is_prefix_of, starts_with_chars};
use vstd::string::StringExecFns;

verus! {

/// Frequency data for one (text, reading) pair.
#[derive(Debug)]
pub struct FrequencyEntry {
    /// The written form.
    pub kanji_element: String,
    /// Whether the written form is common.
    pub kanji_common: bool,
    /// The reading.
    pub reading_element: String,
    /// Whether the reading is common.
    pub reading_common: bool,
}

/// A `FrequencyEntry` as plain values.
pub struct FrequencyView {
    pub text: Seq<char>,
    pub text_is_common: bool,
    pub reading: Seq<char>,
    pub reading_is_common: bool,
}

impl View for FrequencyEntry {
    type V = FrequencyView;

    open spec fn view(&self) -> FrequencyView {
        FrequencyView {
            text: self.kanji_element@,
            text_is_common: self.kanji_common,
            reading: self.reading_element@,
            reading_is_common: self.reading_common,
        }
    }
}

impl Clone for FrequencyEntry {
    fn clone(&self) -> (r: Self)
        ensures
            r@ == self@,
    {
        FrequencyEntry {
            kanji_element: self.kanji_element.clone(),
            kanji_common: self.kanji_common,
            reading_element: self.reading_element.clone(),
            reading_common: self.reading_common,
        }
    }
}

/// The reading of a run of characters of a word.
#[derive(Debug)]
pub struct ReadingSpan {
    /// The index of the first character of the run.
    pub start_index: u8,
    /// The index of the last character of the run.
    pub end_index: u8,
    /// The reading of the run.
    pub text: String,
}

/// A `ReadingSpan` as plain values: the characters `start..=end` of the word
/// are read as `reading`.
pub struct SpanView {
    pub start: int,
    pub end: int,
    pub reading: Seq<char>,
}

impl View for ReadingSpan {
    type V = SpanView;

    open spec fn view(&self) -> SpanView {
        SpanView { start: self.start_index as int, end: self.end_index as int, reading: self.text@ }
    }
}

impl Clone for ReadingSpan {
    fn clone(&self) -> (r: Self)
        ensures
            r@ == self@,
    {
        ReadingSpan { start_index: self.start_index, end_index: self.end_index, text: self.text.clone() }
    }
}

impl ReadingSpan {
    /// The span that owns what a parsed span borrows.
    pub fn from(value: parse::ReadingSpan<'_>) -> (span: ReadingSpan)
        ensures
            span@ == value@,
    {
        ReadingSpan {
            start_index: value.start_index,
            end_index: value.end_index,
            text: value.text.to_owned(),
        }
    }
}

/// Spans that ascend and do not overlap: each starts no later than it ends,
/// and ends before the next one starts.
pub open spec fn ascending(spans: Seq<SpanView>) -> bool {
    &&& forall|i: int| 0 <= i < spans.len() ==> (#[trigger] spans[i]).start <= spans[i].end
    &&& forall|i: int| 0 <= i && i + 1 < spans.len() ==> spans[i].end < spans[i + 1].start
}

/// Every one of the entries has spans that ascend and do not overlap.
pub open spec fn all_ordered(entries: Seq<EntryView>) -> bool {
    forall|i: int| 0 <= i < entries.len() ==> (#[trigger] entries[i]).spans_ordered()
}

/// The views of a list of spans.
pub open spec fn span_views(spans: Seq<ReadingSpan>) -> Seq<SpanView> {
    spans.map_values(|s: ReadingSpan| s@)
}

/// A dictionary entry: a word, one reading of it, how common each is, and the
/// reading broken down over the word's characters.
#[derive(Debug)]
pub struct TextEntry {
    /// The word.
    pub text: String,
    /// Whether the word is common.
    pub text_is_common: bool,
    /// The reading of the whole word.
    pub reading: String,
    /// Whether the reading is common.
    pub reading_is_common: bool,
    /// The readings of the runs of characters of the word.
    pub reading_spans: Vec<ReadingSpan>,
}

/// A `TextEntry` as plain values.
pub struct EntryView {
    pub text: Seq<char>,
    pub text_is_common: bool,
    pub reading: Seq<char>,
    pub reading_is_common: bool,
    pub spans: Seq<SpanView>,
}

impl View for TextEntry {
    type V = EntryView;

    open spec fn view(&self) -> EntryView {
        EntryView {
            text: self.text@,
            text_is_common: self.text_is_common,
            reading: self.reading@,
            reading_is_common: self.reading_is_common,
            spans: span_views(self.reading_spans@),
        }
    }
}

impl EntryView {
    /// The key under which the entry is kept.
    pub open spec fn key(self) -> KeyView {
        KeyView { text: self.text, reading: self.reading }
    }

    /// Spans ascend and do not overlap.
    pub open spec fn spans_ordered(self) -> bool {
        ascending(self.spans)
    }
}

impl Clone for TextEntry {
    fn clone(&self) -> (r: Self)
        ensures
            r@ == self@,
    {
        let mut reading_spans: Vec<ReadingSpan> = Vec::new();
        let mut i: usize = 0;
        while i < self.reading_spans.len()
            invariant
                0 <= i <= self.reading_spans@.len(),
                span_views(reading_spans@) == span_views(self.reading_spans@).subrange(0, i as int),
            decreases self.reading_spans@.len() - i,
        {
            let ghost before = span_views(reading_spans@);
            reading_spans.push(self.reading_spans[i].clone());
            i += 1;
            assert(span_views(reading_spans@) =~= before.push(self.reading_spans@[i - 1]@));
            assert(span_views(reading_spans@) =~= span_views(self.reading_spans@).subrange(0, i as int));
        }
        assert(span_views(reading_spans@) =~= span_views(self.reading_spans@));
        TextEntry {
            text: self.text.clone(),
            text_is_common: self.text_is_common,
            reading: self.reading.clone(),
            reading_is_common: self.reading_is_common,
            reading_spans,
        }
    }
}

impl TextEntry {
    /// Whether the spans ascend and do not overlap.
    pub fn has_ordered_spans(&self) -> (r: bool)
        ensures
            r == self@.spans_ordered(),
    {
        let n = self.reading_spans.len();
        let mut i: usize = 0;
        while i < n
            invariant
                0 <= i <= n,
                n == self.reading_spans@.len(),
                n == self@.spans.len(),
                forall|k: int| 0 <= k < i ==> (#[trigger] self@.spans[k]).start <= self@.spans[k].end,
                forall|k: int| 0 <= k && k + 1 < i ==> self@.spans[k].end < self@.spans[k + 1].start,
            decreases n - i,
        {
            assert(self@.spans[i as int] == self.reading_spans@[i as int]@);
            if self.reading_spans[i].start_index > self.reading_spans[i].end_index {
                return false;
            }
            if i > 0 {
                assert(self@.spans[i - 1] == self.reading_spans@[i - 1]@);
                if self.reading_spans[i - 1].end_index >= self.reading_spans[i].start_index {
                    assert(!(self@.spans[i - 1].end < self@.spans[i - 1 + 1].start));
                    return false;
                }
            }
            i += 1;
        }
        true
    }

    /// The entry that a raw line, `text|reading|span-list`, stands for, not
    /// yet marked as common. There is none where the line holds fewer than
    /// two `|`, where anything is left behind the span list, or where the
    /// spans do not ascend.
    pub fn from_line(line: &str) -> (r: Option<TextEntry>)
        ensures
            match r {
                Some(entry) => parsed(line@) == Some(entry@),
                None => parsed(line@) is None,
            },
    {
        match entry_line(line) {
            Some(read) => {
                let entry = entry_of(read);
                if entry.has_ordered_spans() {
                    Some(entry)
                } else {
                    None
                }
            },
            None => None,
        }
    }
}

/// The views of a list of borrowed entries.
pub open spec fn entry_views(entries: Seq<&TextEntry>) -> Seq<EntryView> {
    entries.map_values(|e: &TextEntry| e@)
}

/// The key of the index: a word and a reading.
#[derive(Debug)]
pub struct Index {
    text: String,
    reading: String,
}

/// An `Index` as plain values.
pub struct KeyView {
    pub text: Seq<char>,
    pub reading: Seq<char>,
}

impl View for Index {
    type V = KeyView;

    closed spec fn view(&self) -> KeyView {
        KeyView { text: self.text@, reading: self.reading@ }
    }
}

impl Clone for Index {
    fn clone(&self) -> (r: Self)
        ensures
            r@ == self@,
    {
        Index { text: self.text.clone(), reading: self.reading.clone() }
    }
}

impl Index {
    /// The key of a word with a reading.
    pub fn new(text: &str, reading: &str) -> (key: Index)
        ensures
            key@ == (KeyView { text: text@, reading: reading@ }),
    {
        Index { text: text.to_owned(), reading: reading.to_owned() }
    }

    /// The least key of a word: the one with the empty reading.
    pub fn from(s: &str) -> (key: Index)
        ensures
            key@ == (KeyView { text: s@, reading: Seq::<char>::empty() }),
    {
        Index { text: s.to_owned(), reading: String::new() }
    }
}

/// Keys are ordered by text first, then by reading.
pub open spec fn key_precedes(a: KeyView, b: KeyView) -> bool {
    precedes(a.text, b.text) || (a.text == b.text && precedes(a.reading, b.reading))
}

/// The place of key `a` relative to key `b`.
pub open spec fn key_order(a: KeyView, b: KeyView) -> Order {
    if key_precedes(a, b) {
        Order::Before
    } else if a == b {
        Order::Same
    } else {
        Order::After
    }
}

/// No key precedes itself, and no two precede each other.
pub proof fn lemma_key_asymmetric(a: KeyView, b: KeyView)
    requires
        key_precedes(a, b),
    ensures
        a != b,
        !key_precedes(b, a),
{
    if precedes(a.text, b.text) {
        lemma_precedes_asymmetric(a.text, b.text);
    } else {
        lemma_precedes_asymmetric(a.reading, b.reading);
        if precedes(b.text, a.text) {
            lemma_precedes_asymmetric(b.text, a.text);
        }
    }
}

/// The order of keys is transitive.
pub proof fn lemma_key_transitive(a: KeyView, b: KeyView, c: KeyView)
    requires
        key_precedes(a, b),
        key_precedes(b, c),
    ensures
        key_precedes(a, c),
{
    if precedes(a.text, b.text) && precedes(b.text, c.text) {
        lemma_precedes_transitive(a.text, b.text, c.text);
    } else if a.text == b.text && b.text == c.text {
        lemma_precedes_transitive(a.reading, b.reading, c.reading);
    }
}

/// Of two different keys one precedes the other.
pub proof fn lemma_key_total(a: KeyView, b: KeyView)
    ensures
        key_precedes(a, b) || a == b || key_precedes(b, a),
{
    lemma_precedes_total(a.text, b.text);
    lemma_precedes_total(a.reading, b.reading);
}

/// Entries ascend strictly by key, so no key occurs twice.
pub open spec fn sorted(entries: Seq<EntryView>) -> bool {
    forall|i: int, j: int|
        0 <= i < j < entries.len() ==> key_precedes(#[trigger] entries[i].key(), #[trigger] entries[j].key())
}

/// The entries whose text is `word`, in index order.
pub open spec fn exact_matches(entries: Seq<EntryView>, word: Seq<char>) -> Seq<EntryView> {
    entries.filter(|e: EntryView| e.text == word)
}

/// The entries whose text begins with `prefix`, in index order.
pub open spec fn prefixed_matches(entries: Seq<EntryView>, prefix: Seq<char>) -> Seq<EntryView> {
    entries.filter(|e: EntryView| is_prefix_of(prefix, e.text))
}

/// Whether some entry has the text `word`.
pub open spec fn has_text(entries: Seq<EntryView>, word: Seq<char>) -> bool {
    exists|i: int| 0 <= i < entries.len() && (#[trigger] entries[i]).text == word
}

/// Whether the text of some entry begins with `prefix`.
pub open spec fn has_prefix(entries: Seq<EntryView>, prefix: Seq<char>) -> bool {
    exists|i: int| 0 <= i < entries.len() && is_prefix_of(prefix, (#[trigger] entries[i]).text)
}

/// Prefix lookup returns every entry that exact lookup returns: the entries
/// whose text is `p` are those among the entries beginning with `p` whose
/// text is `p`.
pub proof fn lemma_prefixed_includes_exact(entries: Seq<EntryView>, p: Seq<char>)
    ensures
        forall|e: EntryView| exact_matches(entries, p).contains(e) ==> prefixed_matches(entries, p).contains(e),
        exact_matches(entries, p) == prefixed_matches(entries, p).filter(|e: EntryView| e.text == p),
{
    let exact = |e: EntryView| e.text == p;
    let prefixed = |e: EntryView| is_prefix_of(p, e.text);
    assert forall|e: EntryView| exact_matches(entries, p).contains(e) implies prefixed_matches(
        entries,
        p,
    ).contains(e) by {
        lemma_filter_contains(entries, exact, e);
        lemma_filter_contains(entries, prefixed, e);
    }
    lemma_filter_refines(entries, prefixed, exact);
}

/// The dictionary: entries in ascending order of (text, reading), one for
/// each key, each with spans that ascend and do not overlap.
#[derive(Debug)]
pub struct Dictionary {
    entries: Vec<TextEntry>,
}

impl Clone for Dictionary {
    fn clone(&self) -> (r: Self)
        ensures
            r@ == self@,
    {
        proof {
            use_type_invariant(self);
        }
        let mut entries: Vec<TextEntry> = Vec::new();
        let mut i: usize = 0;
        while i < self.entries.len()
            invariant
                0 <= i <= self.entries@.len(),
                self@ == self.entries@.map_values(|e: TextEntry| e@),
                entries@.map_values(|e: TextEntry| e@) == self@.subrange(0, i as int),
            decreases self.entries@.len() - i,
        {
            let ghost before = entries@.map_values(|e: TextEntry| e@);
            entries.push(self.entries[i].clone());
            i += 1;
            assert(entries@.map_values(|e: TextEntry| e@) =~= before.push(self@[i - 1]));
            assert(entries@.map_values(|e: TextEntry| e@) =~= self@.subrange(0, i as int));
        }
        assert(entries@.map_values(|e: TextEntry| e@) =~= self@);
        Dictionary { entries }
    }
}

impl View for Dictionary {
    type V = Seq<EntryView>;

    closed spec fn view(&self) -> Seq<EntryView> {
        self.entries@.map_values(|e: TextEntry| e@)
    }
}

impl Dictionary {
    #[verifier::type_invariant]
    closed spec fn well_formed(&self) -> bool {
        sorted(self@) && all_ordered(self@)
    }

    /// The dictionary without entries.
    pub fn new() -> (d: Dictionary)
        ensures
            d@ == Seq::<EntryView>::empty(),
    {
        let d = Dictionary { entries: Vec::new() };
        assert(d@ =~= Seq::<EntryView>::empty());
        d
    }

    /// The number of entries.
    pub fn len(&self) -> (n: usize)
        ensures
            n == self@.len(),
    {
        self.entries.len()
    }

    /// The entry at position `i` of the index.
    pub fn get(&self, i: usize) -> (e: Option<&TextEntry>)
        ensures
            match e {
                Some(e) => i < self@.len() && e@ == self@[i as int],
                None => i >= self@.len(),
            },
    {
        if i < self.entries.len() {
            Some(&self.entries[i])
        } else {
            None
        }
    }

    /// The dictionary of `entries`: each put in the place of its key, so that
    /// of two with the same text and reading the later one stays. There is
    /// none where the spans of some entry do not ascend.
    pub fn from_entries(entries: Vec<TextEntry>) -> (d: Option<Dictionary>)
        ensures
            match d {
                Some(d) => all_ordered(views(entries@)) && d@ == collected(
                    views(entries@),
                    entries@.len() as int,
                ),
                None => !all_ordered(views(entries@)),
            },
    {
        let mut i: usize = 0;
        while i < entries.len()
            invariant
                0 <= i <= entries@.len(),
                forall|j: int| 0 <= j < i ==> (#[trigger] views(entries@)[j]).spans_ordered(),
            decreases entries@.len() - i,
        {
            assert(views(entries@)[i as int] == entries@[i as int]@);
            if !entries[i].has_ordered_spans() {
                return None;
            }
            i += 1;
        }
        Some(Dictionary { entries: index_of(entries) })
    }

    /// The entries, in index order. The spans of each ascend.
    pub fn entries(&self) -> (entries: &Vec<TextEntry>)
        ensures
            views(entries@) == self@,
            sorted(self@),
            all_ordered(self@),
    {
        proof {
            use_type_invariant(self);
        }
        &self.entries
    }

    /// The first position whose key does not precede `key`: where a scan for
    /// the keys from `key` on starts.
    pub fn lower_bound(&self, key: &Index) -> (pos: usize)
        ensures
            pos <= self@.len(),
            sorted(self@),
            forall|i: int|
                0 <= i < self@.len() ==> (key_precedes((#[trigger] self@[i]).key(), key@) <==> i < pos),
    {
        proof {
            use_type_invariant(self);
        }
        let text = chars_of(key.text.as_str());
        let reading = chars_of(key.reading.as_str());
        position(&self.entries, text.as_slice(), reading.as_slice())
    }

    /// All entries whose text is `word`, in ascending order of reading; none
    /// if the word is unknown.
    pub fn lookup_word<'s>(&'s self, word: &str) -> (found: Vec<&'s TextEntry>)
        ensures
            entry_views(found@) == exact_matches(self@, word@),
            all_ordered(entry_views(found@)),
    {
        let w = chars_of(word);
        let ghost none = Seq::<char>::empty();
        let lo = self.lower_bound(&Index::from(word));
        let mut found: Vec<&'s TextEntry> = Vec::new();
        let mut hi = lo;
        while hi < self.entries.len() && equals_chars(self.entries[hi].text.as_str(), w.as_slice())
            invariant
                lo <= hi <= self@.len(),
                self@.len() == self.entries@.len(),
                entry_views(found@) == self@.subrange(lo as int, hi as int),
                forall|i: int| lo <= i < hi ==> (#[trigger] self@[i]).text == w@,
            decreases self@.len() - hi,
        {
            let ghost before = found@;
            found.push(&self.entries[hi]);
            hi += 1;
            proof {
                assert(entry_views(before) == self@.subrange(lo as int, hi - 1));
                assert(entry_views(found@) =~= entry_views(before).push(self@[hi - 1]));
            }
        }
        proof {
            let key = KeyView { text: w@, reading: none };
            let pred = |e: EntryView| e.text == word@;
            assert forall|i: int| 0 <= i < self@.len() implies (pred(#[trigger] self@[i]) <==> lo <= i
                < hi) by {
                let e = self@[i];
                if i < lo {
                    assert(key_precedes(e.key(), key));
                    lemma_nothing_before_empty(e.reading);
                    lemma_precedes_asymmetric(e.text, w@);
                } else if i >= hi {
                    let h = self@[hi as int];
                    assert(!key_precedes(h.key(), key));
                    assert(h.text != w@);
                    if e.text == w@ {
                        assert(i > hi);
                        assert(key_precedes(h.key(), e.key()));
                        assert(precedes(h.text, w@));
                    }
                }
            }
            lemma_filter_block(self@, pred, lo as int, hi as int);
            use_type_invariant(self);
            assert forall|i: int| 0 <= i < entry_views(found@).len() implies (#[trigger] entry_views(
                found@,
            )[i]).spans_ordered() by {
                assert(entry_views(found@)[i] == self@[lo + i]);
            }
        }
        found
    }

    /// All entries whose text begins with `prefix`, those whose text is
    /// `prefix` included, in index order.
    pub fn lookup_prefixed<'s>(&'s self, prefix: &str) -> (found: Vec<&'s TextEntry>)
        ensures
            entry_views(found@) == prefixed_matches(self@, prefix@),
            all_ordered(entry_views(found@)),
    {
        let p = chars_of(prefix);
        let ghost none = Seq::<char>::empty();
        let lo = self.lower_bound(&Index::from(prefix));
        let mut found: Vec<&'s TextEntry> = Vec::new();
        let mut hi = lo;
        while hi < self.entries.len() && starts_with_chars(self.entries[hi].text.as_str(), p.as_slice())
            invariant
                lo <= hi <= self@.len(),
                self@.len() == self.entries@.len(),
                entry_views(found@) == self@.subrange(lo as int, hi as int),
                forall|i: int| lo <= i < hi ==> is_prefix_of(p@, (#[trigger] self@[i]).text),
            decreases self@.len() - hi,
        {
            let ghost before = found@;
            found.push(&self.entries[hi]);
            hi += 1;
            proof {
                assert(entry_views(before) == self@.subrange(lo as int, hi - 1));
                assert(entry_views(found@) =~= entry_views(before).push(self@[hi - 1]));
            }
        }
        proof {
            let key = KeyView { text: p@, reading: none };
            let pred = |e: EntryView| is_prefix_of(prefix@, e.text);
            assert forall|i: int| 0 <= i < self@.len() implies (pred(#[trigger] self@[i]) <==> lo <= i
                < hi) by {
                let e = self@[i];
                if i < lo {
                    assert(key_precedes(e.key(), key));
                    lemma_nothing_before_empty(e.reading);
                    if is_prefix_of(p@, e.text) {
                        lemma_prefix_not_after(p@, e.text);
                    }
                } else if i >= hi {
                    let h = self@[hi as int];
                    assert(!key_precedes(h.key(), key));
                    assert(!is_prefix_of(p@, h.text));
                    if is_prefix_of(p@, e.text) {
                        assert(i > hi);
                        assert(key_precedes(h.key(), e.key()));
                        lemma_prefix_block(p@, h.text, e.text);
                    }
                }
            }
            lemma_filter_block(self@, pred, lo as int, hi as int);
            use_type_invariant(self);
            assert forall|i: int| 0 <= i < entry_views(found@).len() implies (#[trigger] entry_views(
                found@,
            )[i]).spans_ordered() by {
                assert(entry_views(found@)[i] == self@[lo + i]);
            }
        }
        found
    }
}

/// The views of a list of entries.
pub open spec fn views(entries: Seq<TextEntry>) -> Seq<EntryView> {
    entries.map_values(|e: TextEntry| e@)
}

/// The first position whose key does not precede `(text, reading)`.
fn position(v: &Vec<TextEntry>, text: &[char], reading: &[char]) -> (pos: usize)
    requires
        sorted(views(v@)),
    ensures
        pos <= views(v@).len(),
        forall|i: int|
            0 <= i < views(v@).len() ==> (key_precedes(
                (#[trigger] views(v@)[i]).key(),
                KeyView { text: text@, reading: reading@ },
            ) <==> i < pos),
{
    let ghost key = KeyView { text: text@, reading: reading@ };
    let mut lo: usize = 0;
    let mut hi: usize = v.len();
    while lo < hi
        invariant
            0 <= lo <= hi <= views(v@).len(),
            views(v@).len() == v@.len(),
            sorted(views(v@)),
            key == (KeyView { text: text@, reading: reading@ }),
            forall|i: int| 0 <= i < lo ==> key_precedes((#[trigger] views(v@)[i]).key(), key),
            forall|i: int| hi <= i < views(v@).len() ==> !key_precedes((#[trigger] views(v@)[i]).key(), key),
        decreases hi - lo,
    {
        let mid = lo + (hi - lo) / 2;
        let e = &v[mid];
        assert(e@ == views(v@)[mid as int]);
        let by_text = order_of(e.text.as_str(), text);
        let place = match by_text {
            Order::Same => order_of(e.reading.as_str(), reading),
            _ => by_text,
        };
        proof {
            if by_text == Order::After && precedes(e@.text, text@) {
                lemma_precedes_asymmetric(e@.text, text@);
            }
            if by_text == Order::Same && precedes(e@.text, text@) {
                lemma_precedes_asymmetric(e@.text, text@);
            }
        }
        assert((place == Order::Before) == key_precedes(e@.key(), key));
        if place == Order::Before {
            proof {
                assert forall|i: int| 0 <= i < mid + 1 implies key_precedes(
                    (#[trigger] views(v@)[i]).key(),
                    key,
                ) by {
                    if i < mid {
                        assert(key_precedes(views(v@)[i].key(), views(v@)[mid as int].key()));
                        lemma_key_transitive(views(v@)[i].key(), views(v@)[mid as int].key(), key);
                    }
                }
            }
            lo = mid + 1;
        } else {
            proof {
                assert forall|i: int| mid <= i < views(v@).len() implies !key_precedes(
                    (#[trigger] views(v@)[i]).key(),
                    key,
                ) by {
                    if mid < i && key_precedes(views(v@)[i].key(), key) {
                        assert(key_precedes(views(v@)[mid as int].key(), views(v@)[i].key()));
                        lemma_key_transitive(views(v@)[mid as int].key(), views(v@)[i].key(), key);
                    }
                }
            }
            hi = mid;
        }
    }
    lo
}


/// The entry that a valid line stands for: its text, reading and spans, not
/// yet marked as common. A line is valid where it is `text|reading|span-list`
/// from its first character to its last and its spans ascend and do not
/// overlap.
pub open spec fn parsed(line: Seq<char>) -> Option<EntryView> {
    match whole_line(line) {
        Some(l) => if ascending(l.spans) {
            Some(
                EntryView {
                    text: l.text,
                    text_is_common: false,
                    reading: l.reading,
                    reading_is_common: false,
                    spans: l.spans,
                },
            )
        } else {
            None
        },
        None => None,
    }
}

/// `entries` with `e` put in the place of its key: after the entries whose
/// key precedes its own and before those whose key it precedes. An entry
/// that had the same key is gone.
pub open spec fn placed(entries: Seq<EntryView>, e: EntryView) -> Seq<EntryView> {
    entries.filter(|x: EntryView| key_precedes(x.key(), e.key())) + seq![e] + entries.filter(
        |x: EntryView| key_precedes(e.key(), x.key()),
    )
}

/// The index of the first `n` of `entries`: each placed in turn, so that of
/// two with one key the later one stays.
pub open spec fn collected(entries: Seq<EntryView>, n: int) -> Seq<EntryView>
    decreases n,
{
    if n <= 0 {
        Seq::empty()
    } else {
        placed(collected(entries, n - 1), entries[n - 1])
    }
}

/// The entries that valid lines stand for, line by line.
pub open spec fn parsed_all(lines: Seq<Seq<char>>) -> Seq<EntryView> {
    lines.map_values(|l: Seq<char>| parsed(l).unwrap())
}

/// `entries` with the flags of `f` written to the entry that has its text
/// and reading.
pub open spec fn marked(entries: Seq<EntryView>, f: FrequencyView) -> Seq<EntryView> {
    entries.map_values(
        |e: EntryView|
            if e.text == f.text && e.reading == f.reading {
                EntryView {
                    text_is_common: f.text_is_common,
                    reading_is_common: f.reading_is_common,
                    ..e
                }
            } else {
                e
            },
    )
}

/// `entries` marked by the first `n` frequency entries in turn, so that of
/// two with one key the later one stays.
pub open spec fn marked_all(entries: Seq<EntryView>, frequencies: Seq<FrequencyView>, n: int) -> Seq<
    EntryView,
>
    decreases n,
{
    if n <= 0 {
        entries
    } else {
        marked(marked_all(entries, frequencies, n - 1), frequencies[n - 1])
    }
}

/// The views of a list of lines.
pub open spec fn line_views(lines: Seq<String>) -> Seq<Seq<char>> {
    lines.map_values(|l: String| l@)
}

/// The views of a list of frequency entries.
pub open spec fn frequency_views(frequencies: Seq<FrequencyEntry>) -> Seq<FrequencyView> {
    frequencies.map_values(|f: FrequencyEntry| f@)
}

/// The dictionary that valid lines and a frequency corpus build.
pub open spec fn built(lines: Seq<Seq<char>>, frequencies: Seq<FrequencyView>) -> Seq<EntryView> {
    marked_all(
        collected(parsed_all(lines), lines.len() as int),
        frequencies,
        frequencies.len() as int,
    )
}

/// Marking leaves the spans as they are: where the spans of every entry
/// ascend, they still do after the first `n` frequency entries.
pub proof fn lemma_marked_ordered(entries: Seq<EntryView>, frequencies: Seq<FrequencyView>, n: int)
    requires
        all_ordered(entries),
    ensures
        all_ordered(marked_all(entries, frequencies, n)),
        marked_all(entries, frequencies, n).len() == entries.len(),
    decreases n,
{
    if n > 0 {
        lemma_marked_ordered(entries, frequencies, n - 1);
        let before = marked_all(entries, frequencies, n - 1);
        let after = marked(before, frequencies[n - 1]);
        assert forall|i: int| 0 <= i < after.len() implies (#[trigger] after[i]).spans_ordered() by {
            assert(after[i].spans == before[i].spans);
            assert(before[i].spans_ordered());
        }
    }
}

/// In every entry of a dictionary built from valid lines, the spans ascend
/// and do not overlap: each starts no later than it ends, and ends before
/// the next one starts.
pub proof fn lemma_built_ordered(lines: Seq<Seq<char>>, frequencies: Seq<FrequencyView>)
    requires
        forall|i: int| 0 <= i < lines.len() ==> parsed(#[trigger] lines[i]) is Some,
    ensures
        all_ordered(built(lines, frequencies)),
{
    let entries = parsed_all(lines);
    assert forall|j: int| 0 <= j < entries.len() implies (#[trigger] entries[j]).spans_ordered() by {
        assert(parsed(lines[j]) is Some);
    }
    lemma_collected_ordered(entries, lines.len() as int);
    lemma_marked_ordered(collected(entries, lines.len() as int), frequencies, frequencies.len() as int);
}

/// Two dictionaries built from the same lines and the same frequency corpus
/// hold the same entries, and so answer every exact lookup alike.
pub proof fn lemma_build_deterministic(
    first: Seq<EntryView>,
    second: Seq<EntryView>,
    lines: Seq<Seq<char>>,
    frequencies: Seq<FrequencyView>,
    word: Seq<char>,
)
    requires
        first == built(lines, frequencies),
        second == built(lines, frequencies),
    ensures
        first == second,
        exact_matches(first, word) == exact_matches(second, word),
{
}

/// Writes the flags of `f` to the entry that has its text and reading, if
/// there is one.
fn mark(v: &mut Vec<TextEntry>, f: &FrequencyEntry)
    requires
        sorted(views(old(v)@)),
    ensures
        sorted(views(final(v)@)),
        views(final(v)@) == marked(views(old(v)@), f@),
{
    let text = chars_of(f.kanji_element.as_str());
    let reading = chars_of(f.reading_element.as_str());
    let pos = position(v, text.as_slice(), reading.as_slice());
    let ghost before = views(v@);
    let ghost key = KeyView { text: text@, reading: reading@ };
    let same = pos < v.len() && equals_chars(v[pos].text.as_str(), text.as_slice()) && equals_chars(
        v[pos].reading.as_str(),
        reading.as_slice(),
    );
    assert(same <==> pos < before.len() && before[pos as int].key() == key);
    if same {
        let e = &mut v[pos];
        e.text_is_common = f.kanji_common;
        e.reading_is_common = f.reading_common;
    }
    proof {
        let after = views(v@);
        assert(after.len() == before.len());
        assert forall|i: int| 0 <= i < before.len() implies after[i] == marked(before, f@)[i] by {
            if same && i == pos {
                assert(after[i].spans == before[i].spans);
            } else {
                assert(after[i] == before[i]);
                if before[i].key() == key {
                    if i < pos {
                        lemma_key_asymmetric(before[i].key(), key);
                    } else {
                        assert(i > pos);
                        assert(key_precedes(before[pos as int].key(), before[i].key()));
                    }
                }
            }
        }
        assert(after =~= marked(before, f@));
        assert forall|i: int, j: int| 0 <= i < j < after.len() implies key_precedes(
            #[trigger] after[i].key(),
            #[trigger] after[j].key(),
        ) by {
            assert(after[i].key() == before[i].key());
            assert(after[j].key() == before[j].key());
        }
    }
}

/// Why a dictionary could not be built.
#[derive(Debug)]
pub enum BuildError {
    /// The input could not be read. Reported by whoever reads it; `build`
    /// never gives it.
    Io(String),
    /// A line is invalid. Holds the line.
    Parse(String),
}

impl BuildError {
    /// The error in words.
    pub fn message(&self) -> (m: String)
        ensures
            m@ == match self {
                BuildError::Io(e) => "IO error: "@ + e@,
                BuildError::Parse(line) => "Failed to parse line: "@ + line@,
            },
    {
        match self {
            BuildError::Io(e) => {
                let mut m = String::from_str("IO error: ");
                m.append(e.as_str());
                m
            },
            BuildError::Parse(line) => {
                let mut m = String::from_str("Failed to parse line: ");
                m.append(line.as_str());
                m
            },
        }
    }
}

/// The entry that owns what a parsed line borrows, not yet marked as common.
fn entry_of(line: parse::TextEntry<'_>) -> (entry: TextEntry)
    ensures
        entry@ == (EntryView {
            text: line@.text,
            text_is_common: false,
            reading: line@.reading,
            reading_is_common: false,
            spans: line@.spans,
        }),
{
    let parse::TextEntry { text, reading, reading_spans: parsed_spans } = line;
    let ghost all = parsed_spans@;
    let ghost wanted = parse::parsed_span_views(all);
    let mut reading_spans: Vec<ReadingSpan> = Vec::new();
    for span in it: parsed_spans
        invariant
            it.seq() == all,
            wanted == parse::parsed_span_views(all),
            reading_spans@.len() == it.index(),
            span_views(reading_spans@) == wanted.subrange(0, it.index() as int),
    {
        let ghost k = reading_spans@.len() as int;
        assert(span == all[k]);
        assert(span@ == wanted[k]);
        reading_spans.push(ReadingSpan::from(span));
        assert(span_views(reading_spans@) =~= wanted.subrange(0, k + 1));
    }
    assert(span_views(reading_spans@) =~= wanted);
    TextEntry {
        text: text.to_owned(),
        text_is_common: false,
        reading: reading.to_owned(),
        reading_is_common: false,
        reading_spans,
    }
}

/// Builds the dictionary from raw lines, `text|reading|span-list` each, and
/// a frequency corpus.
///
/// Every line must be valid: `text|reading|span-list` from its first
/// character to its last, with spans that ascend and do not overlap. The
/// first invalid line is returned in the error, and no dictionary is built.
/// Of two lines with the same text and reading the later one stays. An entry
/// is marked with the flags of the last frequency entry that has its text
/// and reading, and as not common where there is none. In every entry of the
/// dictionary the spans ascend.
pub fn build(lines: &[String], frequencies: &[FrequencyEntry]) -> (r: Result<Dictionary, BuildError>)
    ensures
        match r {
            Ok(d) => {
                &&& forall|i: int| 0 <= i < lines@.len() ==> parsed(#[trigger] lines@[i]@) is Some
                &&& d@ == built(line_views(lines@), frequency_views(frequencies@))
                &&& all_ordered(d@)
            },
            Err(BuildError::Parse(line)) => exists|i: int|
                {
                    &&& 0 <= i < lines@.len()
                    &&& parsed(#[trigger] lines@[i]@) is None
                    &&& line@ == lines@[i]@
                    &&& forall|j: int| 0 <= j < i ==> parsed(#[trigger] lines@[j]@) is Some
                },
            Err(BuildError::Io(_)) => false,
        },
{
    let mut entries: Vec<TextEntry> = Vec::new();
    let ghost texts = line_views(lines@);
    let ghost corpus = frequency_views(frequencies@);
    let mut i: usize = 0;
    while i < lines.len()
        invariant
            0 <= i <= lines@.len(),
            texts == line_views(lines@),
            views(entries@) == parsed_all(texts).subrange(0, i as int),
            forall|j: int| 0 <= j < i ==> parsed(#[trigger] lines@[j]@) is Some,
        decreases lines@.len() - i,
    {
        let line = &lines[i];
        assert(texts[i as int] == line@);
        match TextEntry::from_line(line.as_str()) {
            Some(entry) => {
                let ghost before = views(entries@);
                entries.push(entry);
                assert(views(entries@) =~= before.push(parsed(line@).unwrap()));
                assert(views(entries@) =~= parsed_all(texts).subrange(0, i + 1));
            },
            None => {
                return Err(BuildError::Parse(line.clone()));
            },
        }
        i += 1;
    }
    assert(views(entries@) =~= parsed_all(texts));
    let mut v = index_of(entries);
    let mut k: usize = 0;
    while k < frequencies.len()
        invariant
            0 <= k <= frequencies@.len(),
            corpus == frequency_views(frequencies@),
            sorted(views(v@)),
            views(v@) == marked_all(collected(parsed_all(texts), texts.len() as int), corpus, k as int),
        decreases frequencies@.len() - k,
    {
        assert(corpus[k as int] == frequencies@[k as int]@);
        mark(&mut v, &frequencies[k]);
        k += 1;
    }
    proof {
        assert forall|j: int| 0 <= j < texts.len() implies parsed(#[trigger] texts[j]) is Some by {
            assert(texts[j] == lines@[j]@);
        }
        lemma_built_ordered(texts, corpus);
    }
    Ok(Dictionary { entries: v })
}

} // verus!
