//! Markup formats for a base text with its reading.

use vstd::prelude::*;
use vstd::string::StringExecFns;
use crate::kana::{katakana_of, to_katakana};

verus! {

/// A way to typeset a base text with its reading. The result depends on the
/// two texts alone.
pub trait Format {
    /// What `format` makes of a base text and its reading.
    spec fn formatted(&self, base: Seq<char>, text: Seq<char>) -> Seq<char>;

    /// Typesets `base` with the reading `text`.
    fn format(&self, base: &str, text: &str) -> (r: String)
        ensures
            r@ == self.formatted(base@, text@),
    ;
}

/// Markdown: `[base]{reading}`.
#[derive(Debug)]
pub struct Markdown;

impl Format for Markdown {
    open spec fn formatted(&self, base: Seq<char>, text: Seq<char>) -> Seq<char> {
        "["@ + base + "]{"@ + text + "}"@
    }

    fn format(&self, base: &str, text: &str) -> (r: String) {
        let mut r = String::from_str("[");
        r.append(base);
        r.append("]{");
        r.append(text);
        r.append("}");
        r
    }
}

/// HTML: `<ruby>base<rp>(</rp><rt>reading</rt><rp>)</rp></ruby>`.
#[derive(Debug)]
pub struct Html;

impl Format for Html {
    open spec fn formatted(&self, base: Seq<char>, text: Seq<char>) -> Seq<char> {
        "<ruby>"@ + base + "<rp>(</rp><rt>"@ + text + "</rt><rp>)</rp></ruby>"@
    }

    fn format(&self, base: &str, text: &str) -> (r: String) {
        let mut r = String::from_str("<ruby>");
        r.append(base);
        r.append("<rp>(</rp><rt>");
        r.append(text);
        r.append("</rt><rp>)</rp></ruby>");
        r
    }
}

/// LaTeX: `\ruby{base}{reading}`.
#[derive(Debug)]
pub struct Latex;

impl Format for Latex {
    open spec fn formatted(&self, base: Seq<char>, text: Seq<char>) -> Seq<char> {
        "\\ruby{"@ + base + "}{"@ + text + "}"@
    }

    fn format(&self, base: &str, text: &str) -> (r: String) {
        let mut r = String::from_str("\\ruby{");
        r.append(base);
        r.append("}{");
        r.append(text);
        r.append("}");
        r
    }
}

/// Another format with the reading converted to katakana. The base text is
/// left alone.
pub struct WithKatakana<'a>(pub &'a dyn Format);

impl<'a> Format for WithKatakana<'a> {
    open spec fn formatted(&self, base: Seq<char>, text: Seq<char>) -> Seq<char> {
        self.0.formatted(base, katakana_of(text))
    }

    fn format(&self, base: &str, text: &str) -> (r: String) {
        let reading = to_katakana(text);
        self.0.format(base, reading.as_str())
    }
}

/// One of the three formats, chosen at run time.
#[derive(Debug)]
pub enum Formatter {
    Markdown(Markdown),
    Html(Html),
    Latex(Latex),
}

impl Format for Formatter {
    open spec fn formatted(&self, base: Seq<char>, text: Seq<char>) -> Seq<char> {
        match self {
            Formatter::Markdown(f) => f.formatted(base, text),
            Formatter::Html(f) => f.formatted(base, text),
            Formatter::Latex(f) => f.formatted(base, text),
        }
    }

    fn format(&self, base: &str, text: &str) -> (r: String) {
        match self {
            Formatter::Markdown(f) => f.format(base, text),
            Formatter::Html(f) => f.format(base, text),
            Formatter::Latex(f) => f.format(base, text),
        }
    }
}

/// The formats by name.
#[derive(Copy, Clone, PartialEq, Eq, Debug, Structural)]
pub enum OutputFormat {
    Markdown,
    Html,
    Latex,
}

impl OutputFormat {
    /// The format of this name.
    pub fn formatter(self) -> (f: Formatter)
        ensures
            f == match self {
                OutputFormat::Markdown => Formatter::Markdown(Markdown),
                OutputFormat::Html => Formatter::Html(Html),
                OutputFormat::Latex => Formatter::Latex(Latex),
            },
    {
        match self {
            OutputFormat::Markdown => Formatter::Markdown(Markdown),
            OutputFormat::Html => Formatter::Html(Html),
            OutputFormat::Latex => Formatter::Latex(Latex),
        }
    }
}

} // verus!
