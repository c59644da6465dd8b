use autoruby::format::{Format, Html, Latex, Markdown, WithKatakana};

#[test]
fn markdown_wraps_base_and_reading() {
    assert_eq!(Markdown.format("神", "かみ"), "[神]{かみ}");
}

#[test]
fn html_wraps_base_and_reading() {
    assert_eq!(
        Html.format("神", "かみ"),
        "<ruby>神<rp>(</rp><rt>かみ</rt><rp>)</rp></ruby>"
    );
}

#[test]
fn latex_wraps_base_and_reading() {
    assert_eq!(Latex.format("神", "かみ"), "\\ruby{神}{かみ}");
}

#[test]
fn katakana_decorator_rewrites_reading_only() {
    let inner = Markdown;
    let format = WithKatakana(&inner);
    assert_eq!(format.format("神", "かみ"), "[神]{カミ}");
    assert_eq!(format.format("かみ", "かみ"), "[かみ]{カミ}");
}
