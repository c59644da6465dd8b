//! Annotated text: fragments with their ranked candidate readings, and how
//! they are rendered.

use std::borrow::Cow;
use vstd::prelude::*;
use vstd::string::StringExecFns;
use crate::dictionary::{entry_views, exact_matches, Dictionary, EntryView, TextEntry};
use crate::format::Format;
use crate::rank::{rank, ranked};
use crate::render::{
    fits, lemma_rendered_by_parts, lemma_source_concat, lemma_source_is_text, lemma_source_one,
    lemma_typeset_concat, lemma_typeset_one, pieces, render_spans, rendered, source, spans_of,
    typeset, Piece,
};
use crate::segment::{
    internal_views, join_texts, joined, lemma_segments_cover, segment, segmented, token_views,
    InternalToken, InternalTokenView, Token, TokenView,
};
use crate::select::Select;
use crate::text::{blank, is_blank, same_text};
use crate::tokenizer::{describe, tokenize, unidic_tokenizer};

verus! {

/// Applies the reading spans of `text_entry` to `text`, typesetting each
/// applied span with `format`. Where a span that would be applied does not
/// lie within `text`, `text` is returned as it is.
pub fn apply<F: Format + ?Sized>(text_entry: &TextEntry, text: &str, format: &F) -> (r: String)
    ensures
        r@ == rendered(text@, text_entry@.spans, format),
{
    assert(spans_of(text_entry.reading_spans@) =~= text_entry@.spans);
    render_spans(text, text_entry.reading_spans.as_slice(), format)
}

/// A fragment of a text with its candidate readings, best first. Usually a
/// word or a well-known phrase.
#[derive(Debug)]
pub struct AnnotatedTextFragment<'a> {
    /// The text of the fragment, as it stands in the document.
    pub text: Cow<'a, str>,
    /// The candidates.
    pub annotations: Vec<&'a TextEntry>,
}

/// An `AnnotatedTextFragment` as plain values.
pub struct FragmentView {
    pub text: Seq<char>,
    pub candidates: Seq<EntryView>,
}

impl<'a> View for AnnotatedTextFragment<'a> {
    type V = FragmentView;

    open spec fn view(&self) -> FragmentView {
        FragmentView { text: self.text@, candidates: entry_views(self.annotations@) }
    }
}

/// The text of a fragment.
pub fn fragment_text<'b>(fragment: &'b AnnotatedTextFragment<'_>) -> (r: &'b str)
    ensures
        r@ == fragment@.text,
{
    match &fragment.text {
        Cow::Borrowed(text) => text,
        Cow::Owned(text) => text.as_str(),
    }
}

impl<'a> AnnotatedTextFragment<'a> {
    /// A fragment without candidates.
    pub fn plain(text: Cow<'a, str>) -> (r: Self)
        ensures
            r@ == (FragmentView { text: text@, candidates: Seq::empty() }),
    {
        let r = AnnotatedTextFragment { text, annotations: Vec::new() };
        assert(r@.candidates =~= Seq::<EntryView>::empty());
        r
    }
}

impl<'a> Clone for AnnotatedTextFragment<'a> {
    fn clone(&self) -> (r: Self)
        ensures
            r@ == self@,
    {
        let text: Cow<'a, str> = match &self.text {
            Cow::Borrowed(text) => Cow::Borrowed(*text),
            Cow::Owned(text) => Cow::Owned(text.clone()),
        };
        let mut annotations: Vec<&'a TextEntry> = Vec::new();
        let mut i: usize = 0;
        while i < self.annotations.len()
            invariant
                0 <= i <= self.annotations@.len(),
                annotations@ == self.annotations@.subrange(0, i as int),
            decreases self.annotations@.len() - i,
        {
            annotations.push(self.annotations[i]);
            i += 1;
            assert(annotations@ =~= self.annotations@.subrange(0, i as int));
        }
        assert(annotations@ =~= self.annotations@);
        AnnotatedTextFragment { text, annotations }
    }
}

/// A whole text as fragments.
#[derive(Debug)]
pub struct AnnotatedText<'a> {
    /// The fragments, in the order of the text.
    pub fragments: Vec<AnnotatedTextFragment<'a>>,
}

impl<'a> View for AnnotatedText<'a> {
    type V = Seq<FragmentView>;

    open spec fn view(&self) -> Seq<FragmentView> {
        self.fragments@.map_values(|f: AnnotatedTextFragment<'a>| f@)
    }
}

impl<'a> Default for AnnotatedText<'a> {
    fn default() -> (r: Self)
        ensures
            r@ == Seq::<FragmentView>::empty(),
    {
        let r = AnnotatedText { fragments: Vec::new() };
        assert(r@ =~= Seq::<FragmentView>::empty());
        r
    }
}

impl<'a> Clone for AnnotatedText<'a> {
    fn clone(&self) -> (r: Self)
        ensures
            r@ == self@,
    {
        let mut fragments: Vec<AnnotatedTextFragment<'a>> = Vec::new();
        let mut i: usize = 0;
        while i < self.fragments.len()
            invariant
                0 <= i <= self.fragments@.len(),
                fragments@.len() == i,
                forall|j: int| 0 <= j < i ==> (#[trigger] fragments@[j])@ == self.fragments@[j]@,
            decreases self.fragments@.len() - i,
        {
            fragments.push(self.fragments[i].clone());
            i += 1;
        }
        let r = AnnotatedText { fragments };
        assert(r@ =~= self@);
        r
    }
}

/// The texts of the fragments, one after the other.
pub open spec fn plain_text(fragments: Seq<FragmentView>) -> Seq<char> {
    fragments.map_values(|f: FragmentView| f.text).flatten()
}

/// The candidate of a fragment at the chosen position, where there is one.
pub open spec fn picked_view(fragment: FragmentView, choice: Option<int>) -> Option<EntryView> {
    match choice {
        Some(i) => if 0 <= i < fragment.candidates.len() {
            Some(fragment.candidates[i])
        } else {
            None
        },
        None => None,
    }
}

/// A fragment as it is rendered under a choice: with the spans of the chosen
/// candidate typeset, or plain where none is chosen.
pub open spec fn rendered_fragment<F: Format + ?Sized>(
    fragment: FragmentView,
    choice: Option<int>,
    format: &F,
) -> Seq<char> {
    match picked_view(fragment, choice) {
        Some(entry) => rendered(fragment.text, entry.spans, format),
        None => fragment.text,
    }
}

/// The fragments from position `i` on as they are rendered by a policy that
/// starts with the memory `m`: each fragment under the policy's choice for
/// it, the policy's memory carried from one fragment to the next.
pub open spec fn rendered_text<S: Select + ?Sized, F: Format + ?Sized>(
    fragments: Seq<FragmentView>,
    m: S::Memory,
    format: &F,
    i: int,
) -> Seq<char>
    decreases fragments.len() - i,
{
    if i < 0 || i >= fragments.len() {
        Seq::empty()
    } else {
        rendered_fragment(fragments[i], S::choice(m, fragments[i]), format) + rendered_text::<S, F>(
            fragments,
            S::remember(m, fragments[i]),
            format,
            i + 1,
        )
    }
}

/// The memory of a policy that started with `m` and has seen the first `n`
/// fragments.
pub open spec fn memory_after<S: Select + ?Sized>(fragments: Seq<FragmentView>, m: S::Memory, n: int) -> S::Memory
    decreases n,
{
    if n <= 0 {
        m
    } else {
        S::remember(memory_after::<S>(fragments, m, n - 1), fragments[n - 1])
    }
}

/// The parts of a fragment under a choice: the parts into which the spans of
/// the chosen candidate divide its text, or the text as one plain part where
/// none is chosen or the chosen spans do not fit.
pub open spec fn fragment_parts(fragment: FragmentView, choice: Option<int>) -> Seq<Piece> {
    match picked_view(fragment, choice) {
        Some(entry) => if fits(entry.spans, fragment.text.len() as int, 0, 0) {
            pieces(fragment.text, entry.spans, 0, 0)
        } else {
            seq![Piece::Plain(fragment.text)]
        },
        None => seq![Piece::Plain(fragment.text)],
    }
}

/// The parts of the fragments from position `i` on under a policy that
/// starts with the memory `m`. No format has a say in it.
pub open spec fn document_parts<S: Select + ?Sized>(fragments: Seq<FragmentView>, m: S::Memory, i: int) -> Seq<
    Piece,
>
    decreases fragments.len() - i,
{
    if i < 0 || i >= fragments.len() {
        Seq::empty()
    } else {
        fragment_parts(fragments[i], S::choice(m, fragments[i])) + document_parts::<S>(
            fragments,
            S::remember(m, fragments[i]),
            i + 1,
        )
    }
}

/// Whatever the format, a rendered document is the format's showing of one
/// and the same division of the document into parts: rendered with two
/// formats, a document has the same plain stretches and the same stretches
/// with the same readings, and differs only in how these are wrapped.
pub proof fn lemma_document_by_parts<S: Select + ?Sized, F: Format + ?Sized>(
    fragments: Seq<FragmentView>,
    m: S::Memory,
    format: &F,
    i: int,
)
    requires
        0 <= i,
    ensures
        rendered_text::<S, F>(fragments, m, format, i) == typeset(
            document_parts::<S>(fragments, m, i),
            format,
        ),
    decreases fragments.len() - i,
{
    if i < fragments.len() {
        let fragment = fragments[i];
        let choice = S::choice(m, fragment);
        let parts = fragment_parts(fragment, choice);
        lemma_document_by_parts::<S, F>(fragments, S::remember(m, fragment), format, i + 1);
        lemma_typeset_concat(parts, document_parts::<S>(fragments, S::remember(m, fragment), i + 1), format);
        match picked_view(fragment, choice) {
            Some(entry) => {
                if fits(entry.spans, fragment.text.len() as int, 0, 0) {
                    lemma_rendered_by_parts(fragment.text, entry.spans, format, 0, 0);
                } else {
                    lemma_typeset_one(Piece::Plain(fragment.text), format);
                }
            },
            None => {
                lemma_typeset_one(Piece::Plain(fragment.text), format);
            },
        }
    }
}

/// The parts of a rendered document stand for the texts of its fragments,
/// one after the other: whatever is chosen, no stretch of the document is
/// emitted twice and none is left out.
pub proof fn lemma_document_source<S: Select + ?Sized>(fragments: Seq<FragmentView>, m: S::Memory, i: int)
    requires
        0 <= i <= fragments.len(),
    ensures
        source(document_parts::<S>(fragments, m, i)) == plain_text(
            fragments.subrange(i, fragments.len() as int),
        ),
    decreases fragments.len() - i,
{
    let text_of = |f: FragmentView| f.text;
    let texts = fragments.subrange(i, fragments.len() as int).map_values(text_of);
    if i < fragments.len() {
        let fragment = fragments[i];
        let choice = S::choice(m, fragment);
        let parts = fragment_parts(fragment, choice);
        lemma_document_source::<S>(fragments, S::remember(m, fragment), i + 1);
        lemma_source_concat(parts, document_parts::<S>(fragments, S::remember(m, fragment), i + 1));
        match picked_view(fragment, choice) {
            Some(entry) => {
                if fits(entry.spans, fragment.text.len() as int, 0, 0) {
                    lemma_source_is_text(fragment.text, entry.spans, 0, 0);
                    assert(fragment.text.subrange(0, fragment.text.len() as int) =~= fragment.text);
                } else {
                    lemma_source_one(Piece::Plain(fragment.text));
                }
            },
            None => {
                lemma_source_one(Piece::Plain(fragment.text));
            },
        }
        assert(source(parts) == fragment.text);
        assert(texts.first() == fragment.text);
        assert(texts.drop_first() =~= fragments.subrange(i + 1, fragments.len() as int).map_values(
            text_of,
        ));
    } else {
        assert(texts =~= Seq::<Seq<char>>::empty());
    }
}

impl<'a> AnnotatedText<'a> {
    /// Renders the text: each fragment in turn is shown to `selector`, and
    /// is emitted with the spans of the chosen candidate typeset by
    /// `format`, or as it is where none is chosen or the chosen spans do not
    /// fit the fragment.
    pub fn render<S: Select + ?Sized, F: Format + ?Sized>(&self, selector: &mut S, format: &F) -> (r:
        String)
        ensures
            r@ == rendered_text::<S, F>(self@, old(selector).memory(), format, 0),
            final(selector).memory() == memory_after::<S>(self@, old(selector).memory(), self@.len() as int),
    {
        let mut out = String::new();
        let mut i: usize = 0;
        let ghost start = selector.memory();
        assert(rendered_text::<S, F>(self@, start, format, 0) =~= out@ + rendered_text::<S, F>(
            self@,
            start,
            format,
            0,
        ));
        while i < self.fragments.len()
            invariant
                0 <= i <= self.fragments@.len(),
                self@.len() == self.fragments@.len(),
                selector.memory() == memory_after::<S>(self@, start, i as int),
                rendered_text::<S, F>(self@, start, format, 0) == out@ + rendered_text::<S, F>(
                    self@,
                    selector.memory(),
                    format,
                    i as int,
                ),
            decreases self.fragments@.len() - i,
        {
            let fragment = &self.fragments[i];
            assert(self@[i as int] == fragment@);
            let ghost before = out@;
            let ghost m = selector.memory();
            let ghost shown = rendered_fragment(fragment@, S::choice(m, fragment@), format);
            match selector.select(fragment) {
                Some(entry) => {
                    let piece = apply(entry, fragment_text(fragment), format);
                    out.append(piece.as_str());
                },
                None => {
                    out.append(fragment_text(fragment));
                },
            }
            assert(out@ == before + shown);
            proof {
                let rest = rendered_text::<S, F>(self@, S::remember(m, fragment@), format, i + 1);
                assert(before + (shown + rest) =~= before + shown + rest);
            }
            i += 1;
        }
        assert(out@ + Seq::<char>::empty() =~= out@);
        out
    }
}

/// The fragment of a segment: its text in the document, and as candidates
/// the entries whose text is the segment's lookup text, ranked by the
/// segment's hint.
pub open spec fn fragment_of(entries: Seq<EntryView>, token: InternalTokenView, skip_common: bool) -> FragmentView {
    FragmentView {
        text: token.surface,
        candidates: ranked(exact_matches(entries, token.lookup), token.hint, skip_common),
    }
}

/// The annotated text of a token stream: its segments, each with its ranked
/// candidates.
pub open spec fn annotated(entries: Seq<EntryView>, tokens: Seq<TokenView>, skip_common: bool) -> Seq<
    FragmentView,
> {
    segmented(entries, tokens, 0).map_values(|t: InternalTokenView| fragment_of(entries, t, skip_common))
}

/// The fragments of an annotated text cover the token stream: their texts,
/// one after the other, are the texts of the tokens, one after the other.
pub proof fn lemma_annotated_covers(entries: Seq<EntryView>, tokens: Seq<TokenView>, skip_common: bool)
    ensures
        plain_text(annotated(entries, tokens, skip_common)) == joined(tokens, 0, tokens.len() as int),
{
    lemma_segments_cover(entries, tokens, 0);
    let segments = segmented(entries, tokens, 0);
    assert(annotated(entries, tokens, skip_common).map_values(|f: FragmentView| f.text)
        =~= segments.map_values(|t: InternalTokenView| t.surface));
}

/// Looks up and ranks the candidates of a segment.
pub fn annotate_internal_token<'b>(dictionary: &'b Dictionary, token: InternalToken<'b>, skip_common: bool) -> (r:
    AnnotatedTextFragment<'b>)
    ensures
        r@ == fragment_of(dictionary@, token@, skip_common),
{
    let found = dictionary.lookup_word(token.lookup_text.as_str());
    let hint: Option<&str> = match &token.reading_hint {
        Some(h) => Some(h.as_str()),
        None => None,
    };
    let annotations = rank(&found, hint, skip_common);
    AnnotatedTextFragment { text: token.original_text, annotations }
}

/// Annotates a token stream: segments it against the dictionary, and looks
/// up and ranks the candidates of each segment.
pub fn annotate_tokens<'b>(dictionary: &'b Dictionary, tokens: &[Token<'b>], skip_common: bool) -> (r:
    AnnotatedText<'b>)
    ensures
        r@ == annotated(dictionary@, token_views(tokens@), skip_common),
{
    let segments = segment(dictionary, tokens);
    let ghost entries = dictionary@;
    let ghost all = internal_views(segments@);
    let mut fragments: Vec<AnnotatedTextFragment<'b>> = Vec::new();
    for token in it: segments
        invariant
            entries == dictionary@,
            all == internal_views(it.seq()),
            fragments@.len() == it.index(),
            forall|j: int| 0 <= j < it.index() ==> (#[trigger] fragments@[j])@ == fragment_of(entries, all[j], skip_common),
    {
        assert(token@ == all[it.index() as int]);
        fragments.push(annotate_internal_token(dictionary, token, skip_common));
    }
    let r = AnnotatedText { fragments };
    assert(r@ =~= annotated(entries, token_views(tokens@), skip_common));
    r
}

/// The annotated text of a document, given the tokens that a tokenizer made
/// of it, if it made any. A blank document has no fragments. The tokens are
/// annotated if their texts, one after the other, are the document; where
/// they are not, or there are none, the whole document is one fragment
/// without candidates.
pub open spec fn annotated_document(
    entries: Seq<EntryView>,
    text: Seq<char>,
    tokens: Option<Seq<TokenView>>,
    skip_common: bool,
) -> Seq<FragmentView> {
    if is_blank(text) {
        Seq::empty()
    } else {
        match tokens {
            Some(tokens) => if joined(tokens, 0, tokens.len() as int) == text {
                annotated(entries, tokens, skip_common)
            } else {
                seq![FragmentView { text, candidates: Seq::empty() }]
            },
            None => seq![FragmentView { text, candidates: Seq::empty() }],
        }
    }
}

/// The views of the tokens of a tokenizer, if it made any.
pub open spec fn tokens_view(tokens: Option<&[Token<'_>]>) -> Option<Seq<TokenView>> {
    match tokens {
        Some(tokens) => Some(token_views(tokens@)),
        None => None,
    }
}

/// The fragments of an annotated document cover it: unless the document is
/// blank, their texts, one after the other, are the document, whatever the
/// tokenizer made of it.
pub proof fn lemma_document_covered(
    entries: Seq<EntryView>,
    text: Seq<char>,
    tokens: Option<Seq<TokenView>>,
    skip_common: bool,
)
    requires
        !is_blank(text),
    ensures
        plain_text(annotated_document(entries, text, tokens, skip_common)) == text,
{
    let only = seq![FragmentView { text, candidates: Seq::empty() }];
    let texts = only.map_values(|f: FragmentView| f.text);
    assert(texts =~= seq![text]);
    assert(texts.drop_first() =~= Seq::<Seq<char>>::empty());
    assert(texts.drop_first().flatten() =~= Seq::<char>::empty());
    assert(texts.flatten() =~= text);
    match tokens {
        Some(tokens) => {
            lemma_annotated_covers(entries, tokens, skip_common);
        },
        None => {},
    }
}

/// Annotates a document, given the tokens that a tokenizer made of it, if
/// it made any.
pub fn annotate_document<'b>(
    dictionary: &'b Dictionary,
    text: &'b str,
    tokens: Option<&[Token<'b>]>,
    skip_common: bool,
) -> (r: AnnotatedText<'b>)
    ensures
        r@ == annotated_document(dictionary@, text@, tokens_view(tokens), skip_common),
{
    if blank(text) {
        return AnnotatedText::default();
    }
    match tokens {
        Some(tokens) => {
            let whole = join_texts(tokens, 0, tokens.len());
            if same_text(whole.as_str(), text) {
                return annotate_tokens(dictionary, tokens, skip_common);
            }
        },
        None => {},
    }
    let mut fragments: Vec<AnnotatedTextFragment<'b>> = Vec::new();
    fragments.push(AnnotatedTextFragment::plain(Cow::Borrowed(text)));
    let r = AnnotatedText { fragments };
    assert(r@ =~= seq![FragmentView { text: text@, candidates: Seq::empty() }]);
    r
}

/// Why an annotator could not be made.
#[derive(Debug)]
pub enum AnnotatorError {
    /// The tokenizer could not be set up. Holds the tokenizer's words.
    Tokenizer(String),
}

/// Annotates texts with candidate readings, given a dictionary.
pub struct Annotator<'a> {
    dictionary: &'a Dictionary,
    tokenizer: lindera_tokenizer::tokenizer::Tokenizer,
    skip_common: bool,
}

impl<'a> Annotator<'a> {
    /// The dictionary that the annotator looks words up in.
    pub closed spec fn entries(&self) -> Seq<EntryView> {
        self.dictionary@
    }

    /// Whether candidates whose text is common are dropped.
    pub closed spec fn skips_common(&self) -> bool {
        self.skip_common
    }

    /// The tokenizer that the annotator cuts texts with.
    pub closed spec fn tokenizer(&self) -> lindera_tokenizer::tokenizer::Tokenizer {
        self.tokenizer
    }

    /// An annotator over `dictionary`, with the tokenizer's own UniDic
    /// dictionary. It keeps candidates whose text is common.
    pub fn new(dictionary: &'a Dictionary) -> (r: Result<Self, AnnotatorError>)
        ensures
            match r {
                Ok(annotator) => annotator.entries() == dictionary@ && !annotator.skips_common(),
                Err(_) => true,
            },
    {
        Annotator::from_outcome(dictionary, unidic_tokenizer())
    }

    /// What becomes of an attempt to set a tokenizer up: with a tokenizer,
    /// an annotator over `dictionary` that cuts texts with it and keeps
    /// candidates whose text is common; without one, the error, with the
    /// tokenizer's words.
    pub fn from_outcome(
        dictionary: &'a Dictionary,
        outcome: Result<lindera_tokenizer::tokenizer::Tokenizer, lindera_core::error::LinderaError>,
    ) -> (r: Result<Self, AnnotatorError>)
        ensures
            match outcome {
                Ok(tokenizer) => {
                    &&& r matches Ok(annotator)
                    &&& annotator.entries() == dictionary@
                    &&& annotator.tokenizer() == tokenizer
                    &&& !annotator.skips_common()
                },
                Err(_) => r is Err,
            },
    {
        match outcome {
            Ok(tokenizer) => Ok(Annotator::with_tokenizer(dictionary, tokenizer)),
            Err(e) => Err(AnnotatorError::Tokenizer(describe(&e))),
        }
    }

    /// An annotator over `dictionary` with a tokenizer of the caller's. It
    /// keeps candidates whose text is common.
    pub fn with_tokenizer(dictionary: &'a Dictionary, tokenizer: lindera_tokenizer::tokenizer::Tokenizer) -> (r:
        Self)
        ensures
            r.entries() == dictionary@,
            r.tokenizer() == tokenizer,
            !r.skips_common(),
    {
        Annotator { dictionary, tokenizer, skip_common: false }
    }

    /// The same annotator, dropping candidates whose text is common if
    /// `skip_common` is set and keeping them if it is not.
    pub fn skipping_common(self, skip_common: bool) -> (r: Self)
        ensures
            r.entries() == self.entries(),
            r.tokenizer() == self.tokenizer(),
            r.skips_common() == skip_common,
    {
        Annotator { dictionary: self.dictionary, tokenizer: self.tokenizer, skip_common }
    }

    /// Looks up and ranks the candidates of a segment.
    pub fn annotate_internal_token<'b>(&'b self, token: InternalToken<'b>) -> (r: AnnotatedTextFragment<'b>)
        ensures
            r@ == fragment_of(self.entries(), token@, self.skips_common()),
    {
        annotate_internal_token(self.dictionary, token, self.skip_common)
    }

    /// Annotates a token stream.
    pub fn annotate_tokens<'b>(&'b self, tokens: &[Token<'b>]) -> (r: AnnotatedText<'b>)
        ensures
            r@ == annotated(self.entries(), token_views(tokens@), self.skips_common()),
    {
        annotate_tokens(self.dictionary, tokens, self.skip_common)
    }

    /// Annotates a text.
    ///
    /// A blank text has no fragments. Any other text is tokenized, and the
    /// tokens are annotated if their texts, one after the other, are the
    /// text; if they are not, or the tokenizer fails, the whole text is one
    /// fragment without candidates. Either way the texts of the fragments,
    /// one after the other, are the text.
    pub fn annotate<'b>(&'b self, text: &'b str) -> (r: AnnotatedText<'b>)
        ensures
            exists|tokens: Option<Seq<TokenView>>|
                r@ == #[trigger] annotated_document(self.entries(), text@, tokens, self.skips_common()),
            is_blank(text@) ==> r@.len() == 0,
            !is_blank(text@) ==> plain_text(r@) == text@,
    {
        if blank(text) {
            let r = annotate_document(self.dictionary, text, None, self.skip_common);
            assert(r@ == annotated_document(self.entries(), text@, None, self.skips_common()));
            return r;
        }
        match tokenize(&self.tokenizer, text) {
            Ok(tokens) => {
                let r = annotate_document(self.dictionary, text, Some(tokens.as_slice()), self.skip_common);
                proof {
                    let made = Some(token_views(tokens@));
                    assert(r@ == annotated_document(self.entries(), text@, made, self.skips_common()));
                    lemma_document_covered(self.entries(), text@, made, self.skips_common());
                }
                r
            },
            Err(_) => {
                let r = annotate_document(self.dictionary, text, None, self.skip_common);
                proof {
                    assert(r@ == annotated_document(self.entries(), text@, None, self.skips_common()));
                    lemma_document_covered(self.entries(), text@, None, self.skips_common());
                }
                r
            },
        }
    }
}

} // verus!
