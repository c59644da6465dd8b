//! Annotation from looked-up spans: each token that holds a kanji is
//! annotated with the spans found for its dictionary form, typeset by a
//! format or by a format string.

use std::borrow::Cow;
use vstd::prelude::*;
use vstd::string::{StrSliceExecFns, StringExecFns};
use crate::dictionary::SpanView;
use crate::format::Format;
use crate::kana::{contains_kanji, has_kanji};
use crate::render::{render_spans, rendered, spans_of, Span};
use crate::segment::{strings, token_views, Token, TokenView};
use crate::text::chars_of;

verus! {

/// The reading of a run of characters of a text.
#[derive(Debug)]
pub struct RubySpan {
    /// The index of the first character of the run.
    pub start_index: usize,
    /// The index of the last character of the run.
    pub end_index: usize,
    /// The reading of the run.
    pub ruby_text: String,
}

impl View for RubySpan {
    type V = SpanView;

    open spec fn view(&self) -> SpanView {
        SpanView { start: self.start_index as int, end: self.end_index as int, reading: self.ruby_text@ }
    }
}

impl Clone for RubySpan {
    fn clone(&self) -> (r: Self)
        ensures
            r@ == self@,
    {
        RubySpan {
            start_index: self.start_index,
            end_index: self.end_index,
            ruby_text: self.ruby_text.clone(),
        }
    }
}

impl Span for RubySpan {
    open spec fn span(&self) -> SpanView {
        self@
    }

    fn start(&self) -> (r: usize) {
        self.start_index
    }

    fn end(&self) -> (r: usize) {
        self.end_index
    }

    fn reading(&self) -> (r: &str) {
        self.ruby_text.as_str()
    }
}

/// A stretch of a document with the spans found for it; there may be none.
#[derive(Debug)]
pub struct Annotated<'a> {
    text: Cow<'a, str>,
    annotations: Vec<RubySpan>,
}

impl<'a> Annotated<'a> {
    /// The text of the stretch.
    pub closed spec fn text_view(&self) -> Seq<char> {
        self.text@
    }

    /// The spans found for the stretch.
    pub closed spec fn spans_view(&self) -> Seq<SpanView> {
        spans_of(self.annotations@)
    }

    /// The stretch `text` with the spans `annotations`.
    pub fn new(text: Cow<'a, str>, annotations: Vec<RubySpan>) -> (r: Self)
        ensures
            r.text_view() == text@,
            r.spans_view() == spans_of(annotations@),
    {
        Annotated { text, annotations }
    }

    /// The text of the stretch.
    pub fn text(&self) -> (r: &str)
        ensures
            r@ == self.text_view(),
    {
        match &self.text {
            Cow::Borrowed(text) => text,
            Cow::Owned(text) => text.as_str(),
        }
    }

    /// The spans found for the stretch.
    pub fn annotations(&self) -> (r: &Vec<RubySpan>)
        ensures
            spans_of(r@) == self.spans_view(),
    {
        &self.annotations
    }
}

/// A stretch of a document: as it is, or with the spans found for it.
#[derive(Debug)]
pub enum TextFragment<'a> {
    Plain(Cow<'a, str>),
    Annotated(Annotated<'a>),
}

/// A `TextFragment` as plain values.
pub enum TextFragmentView {
    Plain(Seq<char>),
    Annotated { text: Seq<char>, spans: Seq<SpanView> },
}

impl<'a> View for TextFragment<'a> {
    type V = TextFragmentView;

    open spec fn view(&self) -> TextFragmentView {
        match self {
            TextFragment::Plain(text) => TextFragmentView::Plain(text@),
            TextFragment::Annotated(a) => TextFragmentView::Annotated {
                text: a.text_view(),
                spans: a.spans_view(),
            },
        }
    }
}

/// Whether `pattern` stands in `s` at position `i`.
pub open spec fn occurs_at(s: Seq<char>, pattern: Seq<char>, i: int) -> bool {
    0 <= i && i + pattern.len() <= s.len() && s.subrange(i, i + pattern.len()) == pattern
}

/// `s` from position `i` on, with every occurrence of `pattern` replaced by
/// `to`, occurrences taken from left to right and none overlapping the one
/// before.
pub open spec fn replaced(s: Seq<char>, pattern: Seq<char>, to: Seq<char>, i: int) -> Seq<char>
    decreases s.len() - i,
{
    if i < 0 || i >= s.len() || pattern.len() == 0 {
        Seq::empty()
    } else if occurs_at(s, pattern, i) {
        to + replaced(s, pattern, to, i + pattern.len())
    } else {
        seq![s[i]] + replaced(s, pattern, to, i + 1)
    }
}

/// What a format string makes of a base text and its reading: every `%b`
/// of the format string replaced by the base text, then every `%t` of the
/// result by the reading.
pub open spec fn template_text(format_string: Seq<char>, base: Seq<char>, ruby_text: Seq<char>) -> Seq<
    char,
> {
    replaced(replaced(format_string, seq!['%', 'b'], base, 0), seq!['%', 't'], ruby_text, 0)
}

/// Whether the two characters `first`, `second` stand in `s` at `i`.
fn pair_at(s: &[char], i: usize, first: char, second: char) -> (r: bool)
    requires
        i < s@.len(),
    ensures
        r == occurs_at(s@, seq![first, second], i as int),
{
    let r = s.len() - i >= 2 && s[i] == first && s[i + 1] == second;
    proof {
        let pattern = seq![first, second];
        if r {
            assert(s@.subrange(i as int, i + 2) =~= pattern);
        } else if i + 2 <= s@.len() {
            assert(s@.subrange(i as int, i + 2)[0] == s@[i as int]);
            assert(s@.subrange(i as int, i + 2)[1] == s@[i + 1]);
        }
    }
    r
}

/// Where nothing is replaced from position `i` to position `j`, what stands
/// there is kept as it is.
proof fn lemma_replaced_keeps(s: Seq<char>, pattern: Seq<char>, to: Seq<char>, i: int, j: int)
    requires
        0 <= i <= j <= s.len(),
        pattern.len() > 0,
        forall|k: int| i <= k < j ==> !occurs_at(s, pattern, k),
    ensures
        replaced(s, pattern, to, i) == s.subrange(i, j) + replaced(s, pattern, to, j),
    decreases j - i,
{
    if i < j {
        lemma_replaced_keeps(s, pattern, to, i + 1, j);
        assert(seq![s[i]] + (s.subrange(i + 1, j) + replaced(s, pattern, to, j)) =~= s.subrange(i, j)
            + replaced(s, pattern, to, j));
    } else {
        assert(s.subrange(i, j) + replaced(s, pattern, to, j) =~= replaced(s, pattern, to, j));
    }
}

/// `text` with every occurrence of the two characters `first`, `second`
/// replaced by `to`.
fn replace_pair(text: &str, first: char, second: char, to: &str) -> (r: String)
    ensures
        r@ == replaced(text@, seq![first, second], to@, 0),
{
    let s = chars_of(text);
    let ghost pattern = seq![first, second];
    let mut r = String::new();
    let mut kept: usize = 0;
    let mut i: usize = 0;
    assert(r@ + replaced(s@, pattern, to@, 0) =~= replaced(s@, pattern, to@, 0));
    while i < s.len()
        invariant
            0 <= kept <= i <= s@.len(),
            s@ == text@,
            pattern == seq![first, second],
            forall|k: int| kept <= k < i ==> !occurs_at(s@, pattern, k),
            replaced(s@, pattern, to@, 0) == r@ + replaced(s@, pattern, to@, kept as int),
        decreases s@.len() - i,
    {
        if pair_at(s.as_slice(), i, first, second) {
            let ghost before = r@;
            r.append(text.substring_char(kept, i));
            r.append(to);
            proof {
                lemma_replaced_keeps(s@, pattern, to@, kept as int, i as int);
                let chunk = s@.subrange(kept as int, i as int);
                let rest = replaced(s@, pattern, to@, i + 2);
                assert(before + (chunk + (to@ + rest)) =~= before + chunk + to@ + rest);
            }
            i += 2;
            kept = i;
        } else {
            i += 1;
        }
    }
    proof {
        lemma_replaced_keeps(s@, pattern, to@, kept as int, s@.len() as int);
        let chunk = s@.subrange(kept as int, s@.len() as int);
        assert(r@ + (chunk + Seq::<char>::empty()) =~= r@ + chunk);
    }
    r.append(text.substring_char(kept, s.len()));
    r
}

/// Fills a format string: every `%b` becomes the base text, then every `%t`
/// the reading.
pub fn format_ruby_text(format_string: &str, base: &str, ruby_text: &str) -> (r: String)
    ensures
        r@ == template_text(format_string@, base@, ruby_text@),
{
    let with_base = replace_pair(format_string, '%', 'b', base);
    replace_pair(with_base.as_str(), '%', 't', ruby_text)
}

/// A format given by a format string, in which `%b` stands for the base
/// text and `%t` for the reading.
#[derive(Debug)]
pub struct Template<'a>(pub &'a str);

impl<'a> Format for Template<'a> {
    open spec fn formatted(&self, base: Seq<char>, text: Seq<char>) -> Seq<char> {
        template_text(self.0@, base, text)
    }

    fn format(&self, base: &str, text: &str) -> (r: String) {
        format_ruby_text(self.0, base, text)
    }
}

/// The formats by name, as format strings.
#[derive(Copy, Clone, PartialEq, Eq, Debug, Structural)]
pub enum OutputMode {
    Markdown,
    Html,
    Latex,
}

impl OutputMode {
    /// The format string of the format.
    pub fn format_string(&self) -> (r: &'static str)
        ensures
            r@ == match self {
                OutputMode::Markdown => "[%b]{%t}"@,
                OutputMode::Html => "<ruby>%b<rp>(</rp><rt>%t</rt><rp>)</rp></ruby>"@,
                OutputMode::Latex => "\\ruby{%b}{%t}"@,
            },
    {
        match self {
            OutputMode::Markdown => "[%b]{%t}",
            OutputMode::Html => "<ruby>%b<rp>(</rp><rt>%t</rt><rp>)</rp></ruby>",
            OutputMode::Latex => "\\ruby{%b}{%t}",
        }
    }
}

/// Typesets the spans `rubies` over `text` with `format`. Where a span that
/// would be applied does not lie within `text`, `text` is returned as it is.
pub fn apply_suggested_rubies<F: Format + ?Sized>(format: &F, text: &str, rubies: &[RubySpan]) -> (r:
    String)
    ensures
        r@ == rendered(text@, spans_of(rubies@), format),
{
    render_spans(text, rubies, format)
}

/// Typesets the spans `rubies` over `text` with a format string. Where a
/// span that would be applied does not lie within `text`, `text` is returned
/// as it is.
pub fn apply_rubies(format_string: &str, text: &str, rubies: &[RubySpan]) -> (r: String)
    ensures
        r@ == rendered(text@, spans_of(rubies@), &Template(format_string)),
{
    let format = Template(format_string);
    render_spans(text, rubies, &format)
}

/// The number of fields of the record of a known word.
pub const RECORD_FIELDS: usize = 9;

/// The position of the dictionary form in the record of a known word.
pub const FORM_FIELD: usize = 6;

/// The text under which the spans of a token are looked up: its dictionary
/// form, if the token holds a kanji and has the record of a known word.
/// Other tokens are not looked up.
pub open spec fn lookup_key(token: TokenView) -> Option<Seq<char>> {
    match token.details {
        Some(fields) => if has_kanji(token.text) && fields.len() == RECORD_FIELDS {
            Some(fields[FORM_FIELD as int])
        } else {
            None
        },
        None => None,
    }
}

/// The text under which the spans of `token` are looked up, if it is looked
/// up at all.
pub fn dictionary_form<'t>(token: &'t Token<'_>) -> (r: Option<&'t str>)
    ensures
        match r {
            Some(form) => lookup_key(token@) == Some(form@),
            None => lookup_key(token@) is None,
        },
{
    match &token.details {
        Some(fields) => {
            if fields.len() == RECORD_FIELDS && contains_kanji(token.text) {
                assert(strings(fields@)[FORM_FIELD as int] == fields@[FORM_FIELD as int]@);
                Some(fields[FORM_FIELD].as_str())
            } else {
                None
            }
        },
        None => None,
    }
}

/// The plain values of the spans found for a token, if any were looked up.
pub open spec fn found_spans(found: Option<Vec<RubySpan>>) -> Option<Seq<SpanView>> {
    match found {
        Some(spans) => Some(spans_of(spans@)),
        None => None,
    }
}

/// The spans found for the token at position `i`: those given for it, and
/// none where fewer lookups are given than there are tokens.
pub open spec fn spans_for(found: Seq<Option<Vec<RubySpan>>>, i: int) -> Option<Seq<SpanView>> {
    if 0 <= i < found.len() {
        found_spans(found[i])
    } else {
        None
    }
}

/// A token as it is emitted: with the spans found for it typeset, if it is
/// looked up and spans are given; as it is otherwise.
pub open spec fn emitted_token<F: Format + ?Sized>(token: TokenView, found: Option<Seq<SpanView>>, format: &F) -> Seq<
    char,
> {
    match (lookup_key(token), found) {
        (Some(_), Some(spans)) => rendered(token.text, spans, format),
        _ => token.text,
    }
}

/// The tokens from position `i` on as they are emitted, one after the other.
pub open spec fn emitted_from<F: Format + ?Sized>(
    tokens: Seq<TokenView>,
    found: Seq<Option<Vec<RubySpan>>>,
    format: &F,
    i: int,
) -> Seq<char>
    decreases tokens.len() - i,
{
    if i < 0 || i >= tokens.len() {
        Seq::empty()
    } else {
        emitted_token(tokens[i], spans_for(found, i), format) + emitted_from(tokens, found, format, i + 1)
    }
}

/// Renders a token stream. `found[i]` holds the spans looked up for the
/// token `tokens[i]` under its dictionary form. A token that is looked up
/// and has spans is emitted with them typeset; every other token is emitted
/// as it is.
pub fn generate_rubies<F: Format + ?Sized>(format: &F, tokens: &[Token<'_>], found: &[Option<Vec<RubySpan>>]) -> (r:
    String)
    ensures
        r@ == emitted_from(token_views(tokens@), found@, format, 0),
{
    let ghost tv = token_views(tokens@);
    let mut out = String::new();
    let mut i: usize = 0;
    assert(out@ + emitted_from(tv, found@, format, 0) =~= emitted_from(tv, found@, format, 0));
    while i < tokens.len()
        invariant
            0 <= i <= tokens@.len(),
            tv == token_views(tokens@),
            emitted_from(tv, found@, format, 0) == out@ + emitted_from(tv, found@, format, i as int),
        decreases tokens@.len() - i,
    {
        let token = &tokens[i];
        assert(tv[i as int] == token@);
        let ghost before = out@;
        let ghost shown = emitted_token(token@, spans_for(found@, i as int), format);
        let spans: Option<&Vec<RubySpan>> = if i < found.len() {
            match &found[i] {
                Some(spans) => Some(spans),
                None => None,
            }
        } else {
            None
        };
        match (dictionary_form(token), spans) {
            (Some(_), Some(spans)) => {
                let piece = apply_suggested_rubies(format, token.text, spans.as_slice());
                out.append(piece.as_str());
            },
            _ => {
                out.append(token.text);
            },
        }
        assert(out@ == before + shown);
        proof {
            let rest = emitted_from(tv, found@, format, i + 1);
            assert(before + (shown + rest) =~= before + shown + rest);
        }
        i += 1;
    }
    assert(out@ + Seq::<char>::empty() =~= out@);
    out
}

/// The fragment of a token: a token that holds a kanji with the spans found
/// for it, none where none are given; any other token as it is.
pub open spec fn token_fragment_view(token: TokenView, found: Option<Seq<SpanView>>) -> TextFragmentView {
    if has_kanji(token.text) {
        TextFragmentView::Annotated {
            text: token.text,
            spans: match found {
                Some(spans) => spans,
                None => Seq::empty(),
            },
        }
    } else {
        TextFragmentView::Plain(token.text)
    }
}

/// Turns a token stream into fragments. `found[i]` holds the spans looked
/// up for the token `tokens[i]` under its dictionary form; the lookups are
/// used up.
pub fn process<'a>(tokens: &[Token<'a>], found: Vec<Option<Vec<RubySpan>>>) -> (r: Vec<TextFragment<'a>>)
    ensures
        r@.len() == tokens@.len(),
        forall|i: int| 0 <= i < tokens@.len() ==> (#[trigger] r@[i])@ == token_fragment_view(
            tokens@[i]@,
            spans_for(found@, i),
        ),
{
    let ghost given = found@;
    let mut found = found;
    let mut r: Vec<TextFragment<'a>> = Vec::new();
    let mut i: usize = 0;
    while i < tokens.len()
        invariant
            0 <= i <= tokens@.len(),
            r@.len() == i,
            found@.len() == given.len(),
            forall|j: int| i <= j < given.len() ==> found@[j] == given[j],
            forall|j: int| 0 <= j < i ==> (#[trigger] r@[j])@ == token_fragment_view(
                tokens@[j]@,
                spans_for(given, j),
            ),
        decreases tokens@.len() - i,
    {
        let token = &tokens[i];
        let mut spans: Option<Vec<RubySpan>> = None;
        if i < found.len() {
            std::mem::swap(&mut spans, &mut found[i]);
        }
        assert(found_spans(spans) == spans_for(given, i as int));
        let fragment = if contains_kanji(token.text) {
            let annotations = match spans {
                Some(spans) => spans,
                None => Vec::new(),
            };
            assert(spans_for(given, i as int) is None ==> spans_of(annotations@) =~= Seq::<SpanView>::empty());
            TextFragment::Annotated(Annotated::new(Cow::Borrowed(token.text), annotations))
        } else {
            TextFragment::Plain(Cow::Borrowed(token.text))
        };
        r.push(fragment);
        i += 1;
    }
    r
}

} // verus!
