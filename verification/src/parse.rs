//! The grammar of a raw dictionary line: `text|reading|span-list`, where the
//! span list is `;`-separated entries `start[-end]:reading`.
//!
//! Each rule reads from the front of its input and hands back what is left.
//! The grammar is stated over positions in the line's characters.

use vstd::prelude::*;
use vstd::string::StrSliceExecFns;
use crate::dictionary::SpanView;
use crate::text::chars_of;

verus! {

/// A parsed line, borrowing from it.
#[derive(Debug)]
pub struct TextEntry<'a> {
    pub text: &'a str,
    pub reading: &'a str,
    pub reading_spans: Vec<ReadingSpan<'a>>,
}

/// A parsed entry of a span list, borrowing from the line.
#[derive(Debug)]
pub struct ReadingSpan<'a> {
    pub start_index: u8,
    pub end_index: u8,
    pub text: &'a str,
}

/// A parsed line as plain values.
pub struct LineView {
    pub text: Seq<char>,
    pub reading: Seq<char>,
    pub spans: Seq<SpanView>,
}

impl<'a> View for ReadingSpan<'a> {
    type V = SpanView;

    open spec fn view(&self) -> SpanView {
        SpanView { start: self.start_index as int, end: self.end_index as int, reading: self.text@ }
    }
}

/// The views of a list of parsed spans.
pub open spec fn parsed_span_views(spans: Seq<ReadingSpan<'_>>) -> Seq<SpanView> {
    spans.map_values(|s: ReadingSpan<'_>| s@)
}

impl<'a> View for TextEntry<'a> {
    type V = LineView;

    open spec fn view(&self) -> LineView {
        LineView {
            text: self.text@,
            reading: self.reading@,
            spans: parsed_span_views(self.reading_spans@),
        }
    }
}

/// An ASCII decimal digit.
pub open spec fn is_digit(c: char) -> bool {
    '0' as int <= c as int <= '9' as int
}

/// Where the run of digits that starts at `pos` ends.
pub open spec fn digits_end(s: Seq<char>, pos: int) -> int
    decreases s.len() - pos,
{
    if 0 <= pos < s.len() && is_digit(s[pos]) {
        digits_end(s, pos + 1)
    } else {
        pos
    }
}

/// The decimal number written by the digits `s[from..to]`.
pub open spec fn number(s: Seq<char>, from: int, to: int) -> int
    decreases to - from,
{
    if from >= to {
        0
    } else {
        number(s, from, to - 1) * 10 + (s[to - 1] as int - '0' as int)
    }
}

/// A range at `pos`: one or more digits, then optionally `-` and one or more
/// digits; a lone index stands for the range from it to itself. Either
/// number above 255 makes the whole range invalid. Gives the position after
/// the range and its two ends.
pub open spec fn range_at(s: Seq<char>, pos: int) -> Option<(int, int, int)> {
    let e1 = digits_end(s, pos);
    let e2 = if e1 < s.len() && s[e1] == '-' {
        digits_end(s, e1 + 1)
    } else {
        e1
    };
    let a = number(s, pos, e1);
    if e1 <= pos {
        None
    } else if e2 > e1 + 1 {
        let b = number(s, e1 + 1, e2);
        if a <= 255 && b <= 255 {
            Some((e2, a, b))
        } else {
            None
        }
    } else if a <= 255 {
        Some((e1, a, a))
    } else {
        None
    }
}

/// Where the reading that starts at `pos` ends: at the first `;` or line
/// feed, or at the end of the input.
pub open spec fn reading_end(s: Seq<char>, pos: int) -> int
    decreases s.len() - pos,
{
    if 0 <= pos < s.len() && s[pos] != ';' && s[pos] != '\n' {
        reading_end(s, pos + 1)
    } else {
        pos
    }
}

/// A span at `pos`: a range, `:`, and a reading of at least one character.
/// Gives the position after the span and the span.
pub open spec fn span_at(s: Seq<char>, pos: int) -> Option<(int, SpanView)> {
    match range_at(s, pos) {
        Some((e, a, b)) => {
            let t = reading_end(s, e + 1);
            if e < s.len() && s[e] == ':' && t > e + 1 {
                Some((t, SpanView { start: a, end: b, reading: s.subrange(e + 1, t) }))
            } else {
                None
            }
        },
        None => None,
    }
}

/// The spans that follow a span that ended at `pos`: each one after a `;`.
/// A `;` that no span follows is left unread. Gives the position after the
/// last span and the spans.
pub open spec fn more_spans(s: Seq<char>, pos: int) -> (int, Seq<SpanView>)
    decreases s.len() - pos,
{
    if 0 <= pos < s.len() && s[pos] == ';' {
        match span_at(s, pos + 1) {
            Some((e, span)) => {
                if pos < e <= s.len() {
                    let (end, rest) = more_spans(s, e);
                    (end, seq![span] + rest)
                } else {
                    (pos, Seq::empty())
                }
            },
            None => (pos, Seq::empty()),
        }
    } else {
        (pos, Seq::empty())
    }
}

/// A span list at `pos`: zero or more spans separated by `;`. Gives the
/// position after the last span and the spans.
pub open spec fn spans_at(s: Seq<char>, pos: int) -> (int, Seq<SpanView>) {
    match span_at(s, pos) {
        Some((e, span)) => {
            let (end, rest) = more_spans(s, e);
            (end, seq![span] + rest)
        },
        None => (pos, Seq::empty()),
    }
}

/// Where the first `|` at or after `pos` stands; the length of the input if
/// there is none.
pub open spec fn bar_at(s: Seq<char>, pos: int) -> int
    decreases s.len() - pos,
{
    if 0 <= pos < s.len() && s[pos] != '|' {
        bar_at(s, pos + 1)
    } else {
        pos
    }
}

/// A line: the text up to the first `|`, the reading up to the second, and a
/// span list. A line with fewer than two `|` is invalid. Gives the position
/// after the span list and the line.
pub open spec fn line_of(s: Seq<char>) -> Option<(int, LineView)> {
    let first_bar = bar_at(s, 0);
    let second_bar = bar_at(s, first_bar + 1);
    if first_bar < s.len() && second_bar < s.len() {
        let (end, spans) = spans_at(s, second_bar + 1);
        Some((end, LineView { text: s.subrange(0, first_bar), reading: s.subrange(first_bar + 1, second_bar), spans }))
    } else {
        None
    }
}

/// A line that is a dictionary line from its first character to its last:
/// nothing is left unread behind the span list.
pub open spec fn whole_line(s: Seq<char>) -> Option<LineView> {
    match line_of(s) {
        Some((end, line)) => if end == s.len() {
            Some(line)
        } else {
            None
        },
        None => None,
    }
}

/// A run of digits ends within the input, and nowhere before a non-digit.
pub proof fn lemma_digits_end(s: Seq<char>, pos: int)
    requires
        0 <= pos <= s.len(),
    ensures
        pos <= digits_end(s, pos) <= s.len(),
        forall|i: int| pos <= i < digits_end(s, pos) ==> is_digit(s[i]),
        digits_end(s, pos) < s.len() ==> !is_digit(s[digits_end(s, pos)]),
    decreases s.len() - pos,
{
    if pos < s.len() && is_digit(s[pos]) {
        lemma_digits_end(s, pos + 1);
    }
}

proof fn lemma_number_nonnegative(s: Seq<char>, from: int, to: int)
    requires
        0 <= from <= to <= s.len(),
        forall|i: int| from <= i < to ==> is_digit(s[i]),
    ensures
        0 <= number(s, from, to),
    decreases to - from,
{
    if from < to {
        lemma_number_nonnegative(s, from, to - 1);
    }
}

/// Reads the run of digits at `pos`: where it ends, and its value if that
/// is at most 255.
fn scan_digits(s: &[char], pos: usize) -> (r: (usize, Option<u8>))
    requires
        pos <= s@.len(),
    ensures
        r.0 == digits_end(s@, pos as int),
        pos <= r.0 <= s@.len(),
        match r.1 {
            Some(v) => v == number(s@, pos as int, r.0 as int),
            None => number(s@, pos as int, r.0 as int) > 255,
        },
{
    let mut i: usize = pos;
    let mut value: u32 = 0;
    let mut fits = true;
    proof {
        lemma_digits_end(s@, pos as int);
    }
    while i < s.len() && s[i] >= '0' && s[i] <= '9'
        invariant
            pos <= i <= s@.len(),
            forall|j: int| pos <= j < i ==> is_digit(s@[j]),
            digits_end(s@, pos as int) == digits_end(s@, i as int),
            fits ==> value == number(s@, pos as int, i as int) && value <= 255,
            !fits ==> number(s@, pos as int, i as int) > 255,
        decreases s@.len() - i,
    {
        let digit = s[i] as u32 - '0' as u32;
        proof {
            lemma_number_nonnegative(s@, pos as int, i as int);
        }
        if fits {
            value = value * 10 + digit;
            if value > 255 {
                fits = false;
            }
        }
        i += 1;
    }
    if fits {
        (i, Some(value as u8))
    } else {
        (i, None)
    }
}

/// Reads the range at `pos`.
fn scan_range(s: &[char], pos: usize) -> (r: Option<(usize, u8, u8)>)
    requires
        pos <= s@.len(),
    ensures
        match r {
            Some((e, a, b)) => range_at(s@, pos as int) == Some((e as int, a as int, b as int)) && pos < e
                <= s@.len(),
            None => range_at(s@, pos as int) is None,
        },
{
    let (e1, first) = scan_digits(s, pos);
    if e1 == pos {
        return None;
    }
    let mut e2 = e1;
    let mut second: Option<u8> = None;
    if e1 < s.len() && s[e1] == '-' {
        let (e, v) = scan_digits(s, e1 + 1);
        e2 = e;
        second = v;
    }
    if e2 > e1 && e2 - e1 > 1 {
        match (first, second) {
            (Some(a), Some(b)) => Some((e2, a, b)),
            _ => None,
        }
    } else {
        match first {
            Some(a) => Some((e1, a, a)),
            None => None,
        }
    }
}

/// Finds where the reading at `pos` ends.
fn scan_reading(s: &[char], pos: usize) -> (end: usize)
    requires
        pos <= s@.len(),
    ensures
        end == reading_end(s@, pos as int),
        pos <= end <= s@.len(),
{
    let mut i: usize = pos;
    while i < s.len() && s[i] != ';' && s[i] != '\n'
        invariant
            pos <= i <= s@.len(),
            reading_end(s@, pos as int) == reading_end(s@, i as int),
        decreases s@.len() - i,
    {
        i += 1;
    }
    i
}

/// Finds the first `|` at or after `pos`.
fn scan_bar(s: &[char], pos: usize) -> (at: usize)
    requires
        pos <= s@.len(),
    ensures
        at == bar_at(s@, pos as int),
        pos <= at <= s@.len(),
{
    let mut i: usize = pos;
    while i < s.len() && s[i] != '|'
        invariant
            pos <= i <= s@.len(),
            bar_at(s@, pos as int) == bar_at(s@, i as int),
        decreases s@.len() - i,
    {
        i += 1;
    }
    i
}

/// Reads the span at `pos` of `input`, whose characters are `s`.
fn scan_span<'a>(input: &'a str, s: &[char], pos: usize) -> (r: Option<(usize, ReadingSpan<'a>)>)
    requires
        s@ == input@,
        pos <= s@.len(),
    ensures
        match r {
            Some((e, span)) => span_at(s@, pos as int) == Some((e as int, span@)) && pos < e <= s@.len(),
            None => span_at(s@, pos as int) is None,
        },
{
    match scan_range(s, pos) {
        Some((e, a, b)) => {
            if e < s.len() && s[e] == ':' {
                let t = scan_reading(s, e + 1);
                if t > e + 1 {
                    let text = input.substring_char(e + 1, t);
                    Some((t, ReadingSpan { start_index: a, end_index: b, text }))
                } else {
                    None
                }
            } else {
                None
            }
        },
        None => None,
    }
}

/// Reads the span list at `pos` of `input`, whose characters are `s`.
fn scan_spans<'a>(input: &'a str, s: &[char], pos: usize) -> (r: (usize, Vec<ReadingSpan<'a>>))
    requires
        s@ == input@,
        pos <= s@.len(),
    ensures
        spans_at(s@, pos as int) == (r.0 as int, parsed_span_views(r.1@)),
        pos <= r.0 <= s@.len(),
{
    let mut spans: Vec<ReadingSpan<'a>> = Vec::new();
    let mut at: usize = pos;
    match scan_span(input, s, pos) {
        Some((e, span)) => {
            spans.push(span);
            at = e;
            assert(parsed_span_views(spans@) =~= seq![span@]);
        },
        None => {
            assert(parsed_span_views(spans@) =~= Seq::<SpanView>::empty());
            return (at, spans);
        },
    }
    loop
        invariant
            s@ == input@,
            pos <= at <= s@.len(),
            spans_at(s@, pos as int) == (
                more_spans(s@, at as int).0,
                parsed_span_views(spans@) + more_spans(s@, at as int).1,
            ),
        ensures
            pos <= at <= s@.len(),
            spans_at(s@, pos as int) == (at as int, parsed_span_views(spans@)),
        decreases s@.len() - at,
    {
        if !(at < s.len() && s[at] == ';') {
            assert(parsed_span_views(spans@) + Seq::<SpanView>::empty() =~= parsed_span_views(spans@));
            break;
        }
        match scan_span(input, s, at + 1) {
            Some((e, span)) => {
                let ghost before = parsed_span_views(spans@);
                let ghost rest = more_spans(s@, e as int).1;
                spans.push(span);
                assert(parsed_span_views(spans@) =~= before.push(span@));
                assert(before + (seq![span@] + rest) =~= before.push(span@) + rest);
                at = e;
            },
            None => {
                assert(parsed_span_views(spans@) + Seq::<SpanView>::empty() =~= parsed_span_views(
                    spans@,
                ));
                break;
            },
        }
    }
    (at, spans)
}

/// Reads a range from the front of `input`: `start` or `start-end`, each a
/// decimal number of at most 255. Gives what is left of the input and the
/// two ends, or nothing where the input does not begin with a valid range.
pub fn take_range(input: &str) -> (r: Option<(&str, (u8, u8))>)
    ensures
        match r {
            Some((rest, (a, b))) => {
                &&& range_at(input@, 0) == Some((input@.len() - rest@.len(), a as int, b as int))
                &&& rest@ == input@.subrange(input@.len() - rest@.len(), input@.len() as int)
            },
            None => range_at(input@, 0) is None,
        },
{
    let s = chars_of(input);
    match scan_range(s.as_slice(), 0) {
        Some((e, a, b)) => Some((input.substring_char(e, s.len()), (a, b))),
        None => None,
    }
}

/// Reads a span from the front of `input`: a range, `:`, and a reading that
/// runs up to the next `;` or line feed and is not empty. Gives what is left
/// of the input and the span, or nothing where the input does not begin with
/// a valid span.
pub fn take_reading_span<'a>(input: &'a str) -> (r: Option<(&'a str, ReadingSpan<'a>)>)
    ensures
        match r {
            Some((rest, span)) => {
                &&& span_at(input@, 0) == Some((input@.len() - rest@.len(), span@))
                &&& rest@ == input@.subrange(input@.len() - rest@.len(), input@.len() as int)
            },
            None => span_at(input@, 0) is None,
        },
{
    let s = chars_of(input);
    match scan_span(input, s.as_slice(), 0) {
        Some((e, span)) => Some((input.substring_char(e, s.len()), span)),
        None => None,
    }
}

/// Reads a span list from the front of `input`: as many spans as stand
/// there, separated by `;`. Gives what is left of the input and the spans;
/// where the input does not begin with a span, all of it is left and the
/// list is empty.
pub fn take_reading_spans<'a>(input: &'a str) -> (r: (&'a str, Vec<ReadingSpan<'a>>))
    ensures
        spans_at(input@, 0) == (input@.len() - r.0@.len(), parsed_span_views(r.1@)),
        r.0@ == input@.subrange(input@.len() - r.0@.len(), input@.len() as int),
{
    let s = chars_of(input);
    let (e, spans) = scan_spans(input, s.as_slice(), 0);
    (input.substring_char(e, s.len()), spans)
}

/// Reads a dictionary line, `text|reading|span-list`, from the front of
/// `input`. Gives what is left of the input after the span list and the
/// parsed line, or nothing where the input holds fewer than two `|`.
pub fn dictionary_line<'a>(input: &'a str) -> (r: Option<(&'a str, TextEntry<'a>)>)
    ensures
        match r {
            Some((rest, entry)) => {
                &&& line_of(input@) == Some((input@.len() - rest@.len(), entry@))
                &&& rest@ == input@.subrange(input@.len() - rest@.len(), input@.len() as int)
            },
            None => line_of(input@) is None,
        },
{
    let s = chars_of(input);
    let first_bar = scan_bar(s.as_slice(), 0);
    if first_bar >= s.len() {
        return None;
    }
    let second_bar = scan_bar(s.as_slice(), first_bar + 1);
    if second_bar >= s.len() {
        return None;
    }
    let (e, reading_spans) = scan_spans(input, s.as_slice(), second_bar + 1);
    let entry = TextEntry {
        text: input.substring_char(0, first_bar),
        reading: input.substring_char(first_bar + 1, second_bar),
        reading_spans,
    };
    Some((input.substring_char(e, s.len()), entry))
}

/// Reads `input` as one dictionary line, `text|reading|span-list`, and
/// nothing else. Gives the parsed line, or nothing where the input holds
/// fewer than two `|` or anything is left behind the span list.
pub fn entry_line<'a>(input: &'a str) -> (r: Option<TextEntry<'a>>)
    ensures
        match r {
            Some(entry) => whole_line(input@) == Some(entry@),
            None => whole_line(input@) is None,
        },
{
    match dictionary_line(input) {
        Some((rest, entry)) => {
            if rest.unicode_len() == 0 {
                Some(entry)
            } else {
                None
            }
        },
        None => None,
    }
}

} // verus!
