//! Typesetting the reading spans of a word over a reference text.
//!
//! Spans are taken in the order given. A span that starts before the end of
//! the last one applied is passed over; the text between and after the
//! applied spans is kept as it is.

use vstd::prelude::*;
use vstd::string::{StrSliceExecFns, StringExecFns};
use crate::dictionary::{ascending, ReadingSpan, SpanView};
use crate::format::Format;

verus! {

/// Anything that says which characters of a text a reading belongs to.
pub trait Span {
    /// The span as plain values.
    spec fn span(&self) -> SpanView;

    /// The index of the first character.
    fn start(&self) -> (r: usize)
        ensures
            r == self.span().start,
    ;

    /// The index of the last character.
    fn end(&self) -> (r: usize)
        ensures
            r == self.span().end,
    ;

    /// The reading of the characters from the first to the last.
    fn reading(&self) -> (r: &str)
        ensures
            r@ == self.span().reading,
    ;
}

impl Span for ReadingSpan {
    open spec fn span(&self) -> SpanView {
        self@
    }

    fn start(&self) -> (r: usize) {
        self.start_index as usize
    }

    fn end(&self) -> (r: usize) {
        self.end_index as usize
    }

    fn reading(&self) -> (r: &str) {
        self.text.as_str()
    }
}

/// The plain values of a list of spans.
pub open spec fn spans_of<S: Span>(spans: Seq<S>) -> Seq<SpanView> {
    spans.map_values(|s: S| s.span())
}

/// Whether the span `spans[i]` is applied when the text has been emitted up
/// to `next`.
pub open spec fn applies(spans: Seq<SpanView>, i: int, next: int) -> bool {
    spans[i].start >= next
}

/// Whether every span that is applied from `spans[i]` on, with the text
/// emitted up to `next`, lies within a text of `len` characters and does not
/// end before the character in front of its start.
pub open spec fn fits(spans: Seq<SpanView>, len: int, i: int, next: int) -> bool
    decreases spans.len() - i,
{
    if i < 0 || i >= spans.len() {
        true
    } else if applies(spans, i, next) {
        &&& spans[i].start <= spans[i].end + 1
        &&& spans[i].end < len
        &&& fits(spans, len, i + 1, spans[i].end + 1)
    } else {
        fits(spans, len, i + 1, next)
    }
}

/// What is emitted from `spans[i]` on, with the text emitted up to `next`:
/// for each applied span the untouched text in front of it and the span's
/// characters typeset with its reading, and after the last span the rest of
/// the text.
pub open spec fn rendered_from<F: Format + ?Sized>(
    text: Seq<char>,
    spans: Seq<SpanView>,
    format: &F,
    i: int,
    next: int,
) -> Seq<char>
    decreases spans.len() - i,
{
    if i < 0 || i >= spans.len() {
        text.subrange(next, text.len() as int)
    } else if applies(spans, i, next) {
        text.subrange(next, spans[i].start) + format.formatted(
            text.subrange(spans[i].start, spans[i].end + 1),
            spans[i].reading,
        ) + rendered_from(text, spans, format, i + 1, spans[i].end + 1)
    } else {
        rendered_from(text, spans, format, i + 1, next)
    }
}

/// The text with its spans typeset, where the spans fit it; the text as it
/// is where they do not.
pub open spec fn rendered<F: Format + ?Sized>(text: Seq<char>, spans: Seq<SpanView>, format: &F) -> Seq<
    char,
> {
    if fits(spans, text.len() as int, 0, 0) {
        rendered_from(text, spans, format, 0, 0)
    } else {
        text
    }
}

/// A part of a typeset text: a stretch of the text as it is, or a stretch
/// with its reading.
pub enum Piece {
    Plain(Seq<char>),
    Ruby { base: Seq<char>, reading: Seq<char> },
}

/// The parts into which the spans from `spans[i]` on divide the text from
/// `next` on. No format has a say in it.
pub open spec fn pieces(text: Seq<char>, spans: Seq<SpanView>, i: int, next: int) -> Seq<Piece>
    decreases spans.len() - i,
{
    if i < 0 || i >= spans.len() {
        seq![Piece::Plain(text.subrange(next, text.len() as int))]
    } else if applies(spans, i, next) {
        seq![
            Piece::Plain(text.subrange(next, spans[i].start)),
            Piece::Ruby {
                base: text.subrange(spans[i].start, spans[i].end + 1),
                reading: spans[i].reading,
            },
        ] + pieces(text, spans, i + 1, spans[i].end + 1)
    } else {
        pieces(text, spans, i + 1, next)
    }
}

/// A part as a format shows it.
pub open spec fn piece_text<F: Format + ?Sized>(piece: Piece, format: &F) -> Seq<char> {
    match piece {
        Piece::Plain(text) => text,
        Piece::Ruby { base, reading } => format.formatted(base, reading),
    }
}

/// The parts as a format shows them, one after the other.
pub open spec fn typeset<F: Format + ?Sized>(parts: Seq<Piece>, format: &F) -> Seq<char>
    decreases parts.len(),
{
    if parts.len() == 0 {
        Seq::empty()
    } else {
        typeset(parts.drop_last(), format) + piece_text(parts.last(), format)
    }
}

/// The characters of the reference text that a part stands for.
pub open spec fn piece_source(piece: Piece) -> Seq<char> {
    match piece {
        Piece::Plain(text) => text,
        Piece::Ruby { base, reading } => base,
    }
}

/// The characters of the reference text that the parts stand for, one part
/// after the other.
pub open spec fn source(parts: Seq<Piece>) -> Seq<char>
    decreases parts.len(),
{
    if parts.len() == 0 {
        Seq::empty()
    } else {
        source(parts.drop_last()) + piece_source(parts.last())
    }
}

/// One part alone is typeset as the format shows it.
pub proof fn lemma_typeset_one<F: Format + ?Sized>(piece: Piece, format: &F)
    ensures
        typeset(seq![piece], format) == piece_text(piece, format),
{
    assert(seq![piece].drop_last() =~= Seq::<Piece>::empty());
    assert(typeset(Seq::<Piece>::empty(), format) =~= Seq::<char>::empty());
    assert(typeset(seq![piece], format) =~= piece_text(piece, format));
}

/// One part alone stands for its own source.
pub proof fn lemma_source_one(piece: Piece)
    ensures
        source(seq![piece]) == piece_source(piece),
{
    assert(seq![piece].drop_last() =~= Seq::<Piece>::empty());
    assert(source(Seq::<Piece>::empty()) =~= Seq::<char>::empty());
    assert(source(seq![piece]) =~= piece_source(piece));
}

/// Typesetting goes part by part.
pub proof fn lemma_typeset_concat<F: Format + ?Sized>(a: Seq<Piece>, b: Seq<Piece>, format: &F)
    ensures
        typeset(a + b, format) == typeset(a, format) + typeset(b, format),
    decreases b.len(),
{
    if b.len() == 0 {
        assert(a + b =~= a);
        assert(typeset(a, format) + typeset(b, format) =~= typeset(a, format));
    } else {
        assert((a + b).drop_last() =~= a + b.drop_last());
        assert((a + b).last() == b.last());
        lemma_typeset_concat(a, b.drop_last(), format);
        assert(typeset(a + b, format) =~= typeset(a, format) + typeset(b, format));
    }
}

/// The source goes part by part.
pub proof fn lemma_source_concat(a: Seq<Piece>, b: Seq<Piece>)
    ensures
        source(a + b) == source(a) + source(b),
    decreases b.len(),
{
    if b.len() == 0 {
        assert(a + b =~= a);
        assert(source(a) + source(b) =~= source(a));
    } else {
        assert((a + b).drop_last() =~= a + b.drop_last());
        assert((a + b).last() == b.last());
        lemma_source_concat(a, b.drop_last());
        assert(source(a + b) =~= source(a) + source(b));
    }
}

/// Whatever the format, what is emitted is the format's showing of one and
/// the same division of the text into parts: two formats differ only in how
/// they show a stretch with its reading.
pub proof fn lemma_rendered_by_parts<F: Format + ?Sized>(
    text: Seq<char>,
    spans: Seq<SpanView>,
    format: &F,
    i: int,
    next: int,
)
    requires
        0 <= i,
    ensures
        rendered_from(text, spans, format, i, next) == typeset(pieces(text, spans, i, next), format),
    decreases spans.len() - i,
{
    if i >= spans.len() {
        lemma_typeset_one(Piece::Plain(text.subrange(next, text.len() as int)), format);
    } else if applies(spans, i, next) {
        let plain = Piece::Plain(text.subrange(next, spans[i].start));
        let ruby = Piece::Ruby {
            base: text.subrange(spans[i].start, spans[i].end + 1),
            reading: spans[i].reading,
        };
        let head = seq![plain, ruby];
        lemma_rendered_by_parts(text, spans, format, i + 1, spans[i].end + 1);
        lemma_typeset_concat(head, pieces(text, spans, i + 1, spans[i].end + 1), format);
        assert(head.drop_last() =~= seq![plain]);
        lemma_typeset_one(plain, format);
        assert(typeset(head, format) =~= piece_text(plain, format) + piece_text(ruby, format));
    } else {
        lemma_rendered_by_parts(text, spans, format, i + 1, next);
    }
}

/// Where the spans fit the text, the parts stand for the text from `next`
/// on, each character once and in order: no stretch of the text is emitted
/// twice, and none is left out.
pub proof fn lemma_source_is_text(text: Seq<char>, spans: Seq<SpanView>, i: int, next: int)
    requires
        0 <= i,
        0 <= next <= text.len(),
        fits(spans, text.len() as int, i, next),
    ensures
        source(pieces(text, spans, i, next)) == text.subrange(next, text.len() as int),
    decreases spans.len() - i,
{
    if i >= spans.len() {
        lemma_source_one(Piece::Plain(text.subrange(next, text.len() as int)));
    } else if applies(spans, i, next) {
        let plain = Piece::Plain(text.subrange(next, spans[i].start));
        let ruby = Piece::Ruby {
            base: text.subrange(spans[i].start, spans[i].end + 1),
            reading: spans[i].reading,
        };
        let head = seq![plain, ruby];
        lemma_source_is_text(text, spans, i + 1, spans[i].end + 1);
        lemma_source_concat(head, pieces(text, spans, i + 1, spans[i].end + 1));
        assert(head.drop_last() =~= seq![plain]);
        lemma_source_one(plain);
        assert(source(head) =~= piece_source(plain) + piece_source(ruby));
        assert(source(pieces(text, spans, i, next)) =~= text.subrange(next, text.len() as int));
    } else {
        lemma_source_is_text(text, spans, i + 1, next);
    }
}

/// Where each span ends before the next one starts, no span is passed over:
/// from `spans[i]` on, with the text emitted no further than to the start of
/// `spans[i]`, every span gives a stretch with its reading, with a stretch
/// of plain text in front of it.
pub proof fn lemma_ordered_spans_all_apply(text: Seq<char>, spans: Seq<SpanView>, i: int, next: int)
    requires
        forall|k: int| 0 <= k && k + 1 < spans.len() ==> #[trigger] spans[k].end < spans[k + 1].start,
        0 <= i <= spans.len(),
        i < spans.len() ==> next <= spans[i].start,
    ensures
        pieces(text, spans, i, next).len() == 2 * (spans.len() - i) + 1,
    decreases spans.len() - i,
{
    if i < spans.len() {
        if i + 1 < spans.len() {
            assert(spans[i].end < spans[i + 1].start);
        }
        lemma_ordered_spans_all_apply(text, spans, i + 1, spans[i].end + 1);
    }
}

/// The spans of a dictionary entry ascend, so the renderer passes none of
/// them over: each gives a stretch with its reading.
pub proof fn lemma_ascending_spans_all_apply(text: Seq<char>, spans: Seq<SpanView>)
    requires
        ascending(spans),
        spans.len() > 0 ==> 0 <= spans[0].start,
    ensures
        pieces(text, spans, 0, 0).len() == 2 * spans.len() + 1,
{
    lemma_ordered_spans_all_apply(text, spans, 0, 0);
}

/// Typesets the spans over the text. Where a span that would be applied
/// does not lie within the text, the text is returned as it is.
pub fn render_spans<S: Span, F: Format + ?Sized>(text: &str, spans: &[S], format: &F) -> (r: String)
    ensures
        r@ == rendered(text@, spans_of(spans@), format),
{
    let n = text.unicode_len();
    let ghost all = spans_of(spans@);
    let mut out = String::new();
    let mut next: usize = 0;
    let mut i: usize = 0;
    while i < spans.len()
        invariant
            0 <= i <= spans@.len(),
            all == spans_of(spans@),
            n == text@.len(),
            0 <= next <= n,
            fits(all, n as int, 0, 0) == fits(all, n as int, i as int, next as int),
            rendered_from(text@, all, format, 0, 0) == out@ + rendered_from(
                text@,
                all,
                format,
                i as int,
                next as int,
            ),
        decreases spans@.len() - i,
    {
        let span = &spans[i];
        assert(all[i as int] == span.span());
        let start = span.start();
        if start >= next {
            let end = span.end();
            if !(end < n && (start <= end || start - end == 1)) {
                return text.to_owned();
            }
            let ghost before = out@;
            out.append(text.substring_char(next, start));
            let shown = format.format(text.substring_char(start, end + 1), span.reading());
            out.append(shown.as_str());
            proof {
                let gap = text@.subrange(next as int, start as int);
                let tail = rendered_from(text@, all, format, i + 1, end + 1);
                assert(before + (gap + shown@ + tail) =~= before + gap + shown@ + tail);
            }
            next = end + 1;
        }
        i += 1;
    }
    let ghost before = out@;
    out.append(text.substring_char(next, n));
    out
}

} // verus!
