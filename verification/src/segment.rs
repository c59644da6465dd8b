//! The segmenter: merges a token stream into the longest runs of tokens
//! whose joined text is the text of a dictionary entry, and leaves every
//! other token as a fragment of its own.

use std::borrow::Cow;
use vstd::prelude::*;
use vstd::string::StringExecFns;
use crate::dictionary::{
    entry_views, has_prefix, has_text, prefixed_matches, Dictionary, EntryView, TextEntry,
};
use crate::filtering::lemma_filter_contains;
use crate::kana::{convertible, hiragana, hiragana_of};
use crate::text::{chars_of, equals_chars, is_prefix_of, starts_with_chars};

verus! {

/// A token of a tokenizer: a stretch of the document and, where the
/// tokenizer knows the word, the fields of its morphological record.
#[derive(Debug)]
pub struct Token<'a> {
    /// The stretch of the document.
    pub text: &'a str,
    /// The fields of the morphological record, if there is one.
    pub details: Option<Vec<String>>,
}

/// A `Token` as plain values.
pub struct TokenView {
    pub text: Seq<char>,
    pub details: Option<Seq<Seq<char>>>,
}

/// The views of a list of strings.
pub open spec fn strings(fields: Seq<String>) -> Seq<Seq<char>> {
    fields.map_values(|s: String| s@)
}

impl<'a> View for Token<'a> {
    type V = TokenView;

    open spec fn view(&self) -> TokenView {
        TokenView {
            text: self.text@,
            details: match self.details {
                Some(fields) => Some(strings(fields@)),
                None => None,
            },
        }
    }
}

/// The views of a list of tokens.
pub open spec fn token_views(tokens: Seq<Token<'_>>) -> Seq<TokenView> {
    tokens.map_values(|t: Token<'_>| t@)
}

/// The number of fields of a full morphological record.
pub const DETAIL_FIELDS: usize = 11;

/// The position of the reading, in katakana, in a full record.
pub const READING_FIELD: usize = 9;

/// The position of the dictionary form in a full record.
pub const LEMMA_FIELD: usize = 10;

/// A full morphological record: at least eleven fields, of which the tenth
/// is the reading in katakana and the eleventh the dictionary form.
#[derive(Debug, Clone, Copy)]
pub struct Details<'a>(&'a [String]);

impl<'a> Details<'a> {
    #[verifier::type_invariant]
    closed spec fn full(&self) -> bool {
        self.0@.len() >= DETAIL_FIELDS
    }

    /// The fields of the record.
    pub closed spec fn fields(&self) -> Seq<Seq<char>> {
        strings(self.0@)
    }

    /// The record of `value`, if it has at least eleven fields.
    pub fn try_from(value: &'a [String]) -> (r: Result<Details<'a>, ()>)
        ensures
            match r {
                Ok(details) => value@.len() >= DETAIL_FIELDS && details.fields() == strings(value@),
                Err(_) => value@.len() < DETAIL_FIELDS,
            },
    {
        if value.len() < DETAIL_FIELDS {
            return Err(());
        }
        Ok(Details(value))
    }

    /// The reading of the word, in katakana.
    pub fn reading_katakana(&self) -> (r: &'a str)
        ensures
            self.fields().len() >= DETAIL_FIELDS,
            r@ == self.fields()[READING_FIELD as int],
    {
        proof {
            use_type_invariant(self);
        }
        self.0[READING_FIELD].as_str()
    }

    /// The dictionary form of the word.
    pub fn dictionary_form(&self) -> (r: &'a str)
        ensures
            self.fields().len() >= DETAIL_FIELDS,
            r@ == self.fields()[LEMMA_FIELD as int],
    {
        proof {
            use_type_invariant(self);
        }
        self.0[LEMMA_FIELD].as_str()
    }
}

/// A fragment before its candidates are looked up: its text in the
/// document, the text to look up, and a hint at its reading.
#[derive(Debug)]
pub struct InternalToken<'a> {
    pub original_text: Cow<'a, str>,
    pub lookup_text: String,
    pub reading_hint: Option<String>,
}

/// An `InternalToken` as plain values.
pub struct InternalTokenView {
    pub surface: Seq<char>,
    pub lookup: Seq<char>,
    pub hint: Option<Seq<char>>,
}

impl<'a> View for InternalToken<'a> {
    type V = InternalTokenView;

    open spec fn view(&self) -> InternalTokenView {
        InternalTokenView {
            surface: self.original_text@,
            lookup: self.lookup_text@,
            hint: match self.reading_hint {
                Some(hint) => Some(hint@),
                None => None,
            },
        }
    }
}

/// The views of a list of fragments.
pub open spec fn internal_views(fragments: Seq<InternalToken<'_>>) -> Seq<InternalTokenView> {
    fragments.map_values(|t: InternalToken<'_>| t@)
}

/// The fragment of a text that is known by its surface alone: looked up as
/// it stands, without a hint.
pub open spec fn opaque_fragment(text: Seq<char>) -> InternalTokenView {
    InternalTokenView { surface: text, lookup: text, hint: None }
}

/// The hint that a reading in katakana gives: the reading in hiragana,
/// where it can be converted.
pub open spec fn reading_hint(reading: Seq<char>) -> Option<Seq<char>> {
    if convertible(reading) {
        Some(hiragana_of(reading))
    } else {
        None
    }
}

/// The fragment of a single token. With a full record it is looked up by
/// its dictionary form, and its reading, converted to hiragana, is the hint.
/// Without a record, or with one of another shape, it is known by its
/// surface alone.
pub open spec fn token_fragment(token: TokenView) -> InternalTokenView {
    match token.details {
        Some(fields) => if fields.len() >= DETAIL_FIELDS {
            InternalTokenView {
                surface: token.text,
                lookup: fields[LEMMA_FIELD as int],
                hint: reading_hint(fields[READING_FIELD as int]),
            }
        } else {
            opaque_fragment(token.text)
        },
        None => opaque_fragment(token.text),
    }
}

impl<'a> InternalToken<'a> {
    /// The fragment of a text that is known by its surface alone.
    pub fn from(text: Cow<'a, str>) -> (r: Self)
        ensures
            r@ == opaque_fragment(text@),
    {
        let lookup_text = match &text {
            Cow::Borrowed(t) => String::from_str(t),
            Cow::Owned(t) => t.clone(),
        };
        InternalToken { original_text: text, lookup_text, reading_hint: None }
    }

    /// The fragment of a token with the text `token_text`: with a record,
    /// looked up by the dictionary form and hinted at by the reading;
    /// without one, known by its surface alone.
    pub fn from_token(token_text: &'a str, details: Option<Details<'_>>) -> (r: Self)
        ensures
            r@ == match details {
                Some(d) => InternalTokenView {
                    surface: token_text@,
                    lookup: d.fields()[LEMMA_FIELD as int],
                    hint: reading_hint(d.fields()[READING_FIELD as int]),
                },
                None => opaque_fragment(token_text@),
            },
    {
        match details {
            Some(d) => InternalToken {
                original_text: Cow::Borrowed(token_text),
                lookup_text: String::from_str(d.dictionary_form()),
                reading_hint: hiragana(d.reading_katakana()),
            },
            None => InternalToken {
                original_text: Cow::Borrowed(token_text),
                lookup_text: String::from_str(token_text),
                reading_hint: None,
            },
        }
    }

    /// The fragment of a single token.
    pub fn of_token(token: &Token<'a>) -> (r: Self)
        ensures
            r@ == token_fragment(token@),
    {
        match &token.details {
            Some(fields) => match Details::try_from(fields.as_slice()) {
                Ok(details) => InternalToken::from_token(token.text, Some(details)),
                Err(_) => InternalToken::from_token(token.text, None),
            },
            None => InternalToken::from(Cow::Borrowed(token.text)),
        }
    }
}

/// The texts of the tokens `from..to`, one after the other.
pub open spec fn joined(tokens: Seq<TokenView>, from: int, to: int) -> Seq<char>
    decreases to - from,
{
    if from >= to {
        Seq::empty()
    } else {
        joined(tokens, from, to - 1) + tokens[to - 1].text
    }
}

/// Joining can be done in two parts.
pub proof fn lemma_joined_split(tokens: Seq<TokenView>, from: int, mid: int, to: int)
    requires
        from <= mid <= to,
    ensures
        joined(tokens, from, to) == joined(tokens, from, mid) + joined(tokens, mid, to),
    decreases to - mid,
{
    if mid == to {
        assert(joined(tokens, from, to) =~= joined(tokens, from, mid) + joined(tokens, mid, to));
    } else {
        lemma_joined_split(tokens, from, mid, to - 1);
        assert(joined(tokens, from, to) =~= joined(tokens, from, mid) + joined(tokens, mid, to));
    }
}

/// A window begins with every shorter window of the same start.
pub proof fn lemma_joined_prefix(tokens: Seq<TokenView>, from: int, mid: int, to: int)
    requires
        from <= mid <= to,
    ensures
        is_prefix_of(joined(tokens, from, mid), joined(tokens, from, to)),
{
    lemma_joined_split(tokens, from, mid, to);
}

/// A window of one token is the token's text.
pub proof fn lemma_joined_one(tokens: Seq<TokenView>, at: int)
    ensures
        joined(tokens, at, at + 1) == tokens[at].text,
{
    assert(joined(tokens, at, at) =~= Seq::<char>::empty());
    assert(joined(tokens, at, at + 1) =~= tokens[at].text);
}

/// The end of the longest window that starts at `start`, ends at `end` or
/// before, holds two tokens or more, and whose joined text is the text of an
/// entry; `start + 1` where there is no such window.
pub open spec fn longest_match(entries: Seq<EntryView>, tokens: Seq<TokenView>, start: int, end: int) -> int
    decreases end - start,
{
    if end <= start + 1 {
        start + 1
    } else if has_text(entries, joined(tokens, start, end)) {
        end
    } else {
        longest_match(entries, tokens, start, end - 1)
    }
}

/// The longest match ends after its start and not after the bound.
pub proof fn lemma_longest_match_bounds(entries: Seq<EntryView>, tokens: Seq<TokenView>, start: int, end: int)
    requires
        start < end,
    ensures
        start < longest_match(entries, tokens, start, end) <= end,
    decreases end - start,
{
    if end > start + 1 && !has_text(entries, joined(tokens, start, end)) {
        lemma_longest_match_bounds(entries, tokens, start, end - 1);
    }
}

/// The longest match is what its name says: no longer window of the same
/// start, up to the bound, is the text of an entry.
pub proof fn lemma_longest_match_is_longest(
    entries: Seq<EntryView>,
    tokens: Seq<TokenView>,
    start: int,
    end: int,
    other: int,
)
    requires
        start < end,
        longest_match(entries, tokens, start, end) < other <= end,
    ensures
        !has_text(entries, joined(tokens, start, other)),
    decreases end - start,
{
    if end > start + 1 && !has_text(entries, joined(tokens, start, end)) {
        if other < end {
            lemma_longest_match_is_longest(entries, tokens, start, end - 1, other);
        }
    }
}

/// Beyond a window that begins no entry, no window is the text of an entry:
/// the search for the longest match may start there.
pub proof fn lemma_search_from_dead_end(
    entries: Seq<EntryView>,
    tokens: Seq<TokenView>,
    start: int,
    dead: int,
    end: int,
)
    requires
        start < dead <= end,
        !has_prefix(entries, joined(tokens, start, dead)),
    ensures
        longest_match(entries, tokens, start, end) == longest_match(entries, tokens, start, dead),
    decreases end - dead,
{
    if dead < end {
        if has_text(entries, joined(tokens, start, end)) {
            let i = choose|i: int|
                0 <= i < entries.len() && (#[trigger] entries[i]).text == joined(tokens, start, end);
            lemma_joined_prefix(tokens, start, dead, end);
            assert(is_prefix_of(joined(tokens, start, dead), entries[i].text));
            assert(false);
        }
        lemma_search_from_dead_end(entries, tokens, start, dead, end - 1);
    }
}

/// The fragment of the window `start..end`: of one token, the token's own
/// fragment; of more, their joined text, known by its surface alone.
pub open spec fn fragment_at(tokens: Seq<TokenView>, start: int, end: int) -> InternalTokenView {
    if end <= start + 1 {
        token_fragment(tokens[start])
    } else {
        opaque_fragment(joined(tokens, start, end))
    }
}

/// The fragments of the tokens from `start` on: at each point the longest
/// match, or a single token where there is none.
pub open spec fn segmented(entries: Seq<EntryView>, tokens: Seq<TokenView>, start: int) -> Seq<
    InternalTokenView,
>
    decreases tokens.len() - start,
{
    if start < 0 || start >= tokens.len() {
        Seq::empty()
    } else {
        let end = longest_match(entries, tokens, start, tokens.len() as int);
        if start < end <= tokens.len() {
            seq![fragment_at(tokens, start, end)] + segmented(entries, tokens, end)
        } else {
            Seq::empty()
        }
    }
}

/// The texts of the fragments, one after the other.
pub open spec fn surfaces(fragments: Seq<InternalTokenView>) -> Seq<char> {
    fragments.map_values(|f: InternalTokenView| f.surface).flatten()
}

/// The fragments cover the tokens: their texts, one after the other, are the
/// tokens' texts, one after the other, with nothing left out, added or
/// moved.
pub proof fn lemma_segments_cover(entries: Seq<EntryView>, tokens: Seq<TokenView>, start: int)
    requires
        0 <= start <= tokens.len(),
    ensures
        surfaces(segmented(entries, tokens, start)) == joined(tokens, start, tokens.len() as int),
    decreases tokens.len() - start,
{
    let text_of = |f: InternalTokenView| f.surface;
    if start == tokens.len() {
        assert(segmented(entries, tokens, start).map_values(text_of) =~= Seq::<Seq<char>>::empty());
        assert(joined(tokens, start, tokens.len() as int) =~= Seq::<char>::empty());
    } else {
        let end = longest_match(entries, tokens, start, tokens.len() as int);
        lemma_longest_match_bounds(entries, tokens, start, tokens.len() as int);
        lemma_segments_cover(entries, tokens, end);
        let first = fragment_at(tokens, start, end);
        let rest = segmented(entries, tokens, end);
        lemma_joined_one(tokens, start);
        assert(first.surface == joined(tokens, start, end));
        lemma_joined_split(tokens, start, end, tokens.len() as int);
        let all = (seq![first] + rest).map_values(text_of);
        assert(all.drop_first() =~= rest.map_values(text_of));
        assert(all.first() == first.surface);
        assert(all.flatten() =~= first.surface + rest.map_values(text_of).flatten());
    }
}

/// The candidates for the windows that start at `start`: the entries whose
/// text begins with the first token of the window. A window holds at least
/// one token.
pub fn window_candidates<'d>(dictionary: &'d Dictionary, tokens: &[Token<'_>], start: usize, end: usize) -> (found:
    Vec<&'d TextEntry>)
    requires
        start < end <= tokens@.len(),
    ensures
        entry_views(found@) == prefixed_matches(dictionary@, tokens@[start as int]@.text),
{
    dictionary.lookup_prefixed(tokens[start].text)
}

/// The texts of the tokens `from..to`, one after the other.
pub fn join_texts(tokens: &[Token<'_>], from: usize, to: usize) -> (r: String)
    requires
        from <= to <= tokens@.len(),
    ensures
        r@ == joined(token_views(tokens@), from as int, to as int),
{
    let mut r = String::new();
    let mut i: usize = from;
    assert(r@ =~= joined(token_views(tokens@), from as int, from as int));
    while i < to
        invariant
            from <= i <= to <= tokens@.len(),
            r@ == joined(token_views(tokens@), from as int, i as int),
        decreases to - i,
    {
        assert(token_views(tokens@)[i as int] == tokens@[i as int]@);
        r.append(tokens[i].text);
        i += 1;
    }
    r
}

/// Whether the text of some candidate begins with `window`.
fn any_begins_with(candidates: &Vec<&TextEntry>, window: &str) -> (r: bool)
    ensures
        r == has_prefix(entry_views(candidates@), window@),
{
    let w = chars_of(window);
    let mut i: usize = 0;
    while i < candidates.len()
        invariant
            0 <= i <= candidates@.len(),
            w@ == window@,
            forall|j: int| 0 <= j < i ==> !is_prefix_of(window@, (#[trigger] entry_views(candidates@)[j]).text),
        decreases candidates@.len() - i,
    {
        assert(entry_views(candidates@)[i as int] == candidates@[i as int]@);
        if starts_with_chars(candidates[i].text.as_str(), w.as_slice()) {
            return true;
        }
        i += 1;
    }
    false
}

/// Whether the text of some candidate is `window`.
fn any_is(candidates: &Vec<&TextEntry>, window: &str) -> (r: bool)
    ensures
        r == has_text(entry_views(candidates@), window@),
{
    let w = chars_of(window);
    let mut i: usize = 0;
    while i < candidates.len()
        invariant
            0 <= i <= candidates@.len(),
            w@ == window@,
            forall|j: int| 0 <= j < i ==> (#[trigger] entry_views(candidates@)[j]).text != window@,
        decreases candidates@.len() - i,
    {
        assert(entry_views(candidates@)[i as int] == candidates@[i as int]@);
        if equals_chars(candidates[i].text.as_str(), w.as_slice()) {
            return true;
        }
        i += 1;
    }
    false
}

/// Among the entries that begin with `first`, those that begin with, or
/// are, a text that itself begins with `first` are found as well as among
/// all entries.
proof fn lemma_candidates_suffice(entries: Seq<EntryView>, first: Seq<char>, window: Seq<char>)
    requires
        is_prefix_of(first, window),
    ensures
        has_prefix(prefixed_matches(entries, first), window) == has_prefix(entries, window),
        has_text(prefixed_matches(entries, first), window) == has_text(entries, window),
{
    let found = prefixed_matches(entries, first);
    let begins = |e: EntryView| is_prefix_of(first, e.text);
    if has_prefix(found, window) {
        let i = choose|i: int| 0 <= i < found.len() && is_prefix_of(window, (#[trigger] found[i]).text);
        assert(found.contains(found[i]));
        lemma_filter_contains(entries, begins, found[i]);
        let j = choose|j: int| 0 <= j < entries.len() && entries[j] == found[i];
        assert(is_prefix_of(window, entries[j].text));
    }
    if has_prefix(entries, window) {
        let j = choose|j: int| 0 <= j < entries.len() && is_prefix_of(window, (#[trigger] entries[j]).text);
        assert(entries.contains(entries[j]));
        lemma_filter_contains(entries, begins, entries[j]);
        let i = choose|i: int| 0 <= i < found.len() && found[i] == entries[j];
        assert(is_prefix_of(window, found[i].text));
    }
    if has_text(found, window) {
        let i = choose|i: int| 0 <= i < found.len() && (#[trigger] found[i]).text == window;
        assert(found.contains(found[i]));
        lemma_filter_contains(entries, begins, found[i]);
        let j = choose|j: int| 0 <= j < entries.len() && entries[j] == found[i];
        assert(entries[j].text == window);
    }
    if has_text(entries, window) {
        let j = choose|j: int| 0 <= j < entries.len() && (#[trigger] entries[j]).text == window;
        assert(entries.contains(entries[j]));
        lemma_filter_contains(entries, begins, entries[j]);
        let i = choose|i: int| 0 <= i < found.len() && found[i] == entries[j];
        assert(found[i].text == window);
    }
}

/// Where the fragment that starts at `start` ends: the window is extended
/// while a token follows and some candidate begins with the window, then
/// shortened to the longest window that is the text of a candidate.
fn fragment_end(dictionary: &Dictionary, tokens: &[Token<'_>], start: usize) -> (end: usize)
    requires
        start < tokens@.len(),
    ensures
        end == longest_match(dictionary@, token_views(tokens@), start as int, tokens@.len() as int),
        start < end <= tokens@.len(),
{
    let ghost entries = dictionary@;
    let ghost tv = token_views(tokens@);
    let ghost first = tv[start as int].text;
    let n = tokens.len();
    let candidates = window_candidates(dictionary, tokens, start, start + 1);
    assert(tv[start as int] == tokens@[start as int]@);
    let mut reach: usize = start + 1;
    let mut alive = true;
    while alive && reach < n
        invariant
            start < reach <= n,
            n == tokens@.len(),
            tv == token_views(tokens@),
            !alive ==> reach < n && !has_prefix(entry_views(candidates@), joined(tv, start as int, reach as int)),
        decreases n - reach + if alive { 1int } else { 0int },
    {
        let window = join_texts(tokens, start, reach);
        if any_begins_with(&candidates, window.as_str()) {
            reach += 1;
        } else {
            alive = false;
        }
    }
    proof {
        lemma_longest_match_bounds(entries, tv, start as int, n as int);
        if reach < n {
            let window = joined(tv, start as int, reach as int);
            lemma_joined_one(tv, start as int);
            lemma_joined_prefix(tv, start as int, start + 1, reach as int);
            lemma_candidates_suffice(entries, first, window);
            lemma_search_from_dead_end(entries, tv, start as int, reach as int, n as int);
        }
    }
    let mut end: usize = reach;
    let mut found = false;
    while !found && end > start + 1
        invariant
            start < end <= reach <= n,
            n == tokens@.len(),
            entries == dictionary@,
            tv == token_views(tokens@),
            first == tv[start as int].text,
            entry_views(candidates@) == prefixed_matches(entries, first),
            longest_match(entries, tv, start as int, n as int) == longest_match(
                entries,
                tv,
                start as int,
                end as int,
            ),
            found ==> end > start + 1 && has_text(entries, joined(tv, start as int, end as int)),
        decreases end - start + if found { 0int } else { 1int },
    {
        let window = join_texts(tokens, start, end);
        proof {
            lemma_joined_one(tv, start as int);
            lemma_joined_prefix(tv, start as int, start + 1, end as int);
            lemma_candidates_suffice(entries, first, window@);
        }
        if any_is(&candidates, window.as_str()) {
            found = true;
        } else {
            end -= 1;
        }
    }
    end
}

/// Segments the tokens against the dictionary: at each point the longest
/// run of two or more tokens whose joined text is the text of an entry
/// becomes one fragment, known by that text alone; where there is no such
/// run, the single token becomes a fragment, looked up by its dictionary
/// form and hinted at by its reading if it has a full record.
pub fn segment<'a>(dictionary: &Dictionary, tokens: &[Token<'a>]) -> (fragments: Vec<InternalToken<'a>>)
    ensures
        internal_views(fragments@) == segmented(dictionary@, token_views(tokens@), 0),
{
    let ghost entries = dictionary@;
    let ghost tv = token_views(tokens@);
    let mut fragments: Vec<InternalToken<'a>> = Vec::new();
    let mut start: usize = 0;
    assert(internal_views(fragments@) + segmented(entries, tv, 0) =~= segmented(entries, tv, 0));
    while start < tokens.len()
        invariant
            0 <= start <= tokens@.len(),
            entries == dictionary@,
            tv == token_views(tokens@),
            segmented(entries, tv, 0) == internal_views(fragments@) + segmented(entries, tv, start as int),
        decreases tokens@.len() - start,
    {
        let end = fragment_end(dictionary, tokens, start);
        let ghost before = internal_views(fragments@);
        let fragment = if end == start + 1 {
            assert(tv[start as int] == tokens@[start as int]@);
            InternalToken::of_token(&tokens[start])
        } else {
            InternalToken::from(Cow::Owned(join_texts(tokens, start, end)))
        };
        assert(fragment@ == fragment_at(tv, start as int, end as int));
        fragments.push(fragment);
        proof {
            let rest = segmented(entries, tv, end as int);
            assert(internal_views(fragments@) =~= before.push(fragment@));
            assert(before + (seq![fragment@] + rest) =~= before.push(fragment@) + rest);
        }
        start = end;
    }
    assert(internal_views(fragments@) + Seq::<InternalTokenView>::empty() =~= internal_views(fragments@));
    fragments
}

} // verus!
