use std::borrow::Cow;

use autoruby::annotate::{
    annotate_document, annotate_internal_token, annotate_tokens, AnnotatedText,
    AnnotatedTextFragment, Annotator, AnnotatorError,
};
use autoruby::dictionary::{build, Dictionary, FrequencyEntry, TextEntry};
use autoruby::format::{Format, Formatter, Html, Markdown, OutputFormat, WithKatakana};
use autoruby::rank::rank;
use autoruby::segment::{join_texts, segment, window_candidates, Details, InternalToken, Token};
use autoruby::select::filter::FirstOccurrence;
use autoruby::select::heuristic::{All, UncommonOnly};

fn lines(raw: &[&str]) -> Vec<String> {
    raw.iter().map(|l| l.to_string()).collect()
}

fn common(text: &str, reading: &str) -> FrequencyEntry {
    FrequencyEntry {
        kanji_element: text.to_string(),
        kanji_common: true,
        reading_element: reading.to_string(),
        reading_common: true,
    }
}

/// A token with a full record: the reading in katakana and the dictionary
/// form stand in the tenth and eleventh field.
fn word<'a>(text: &'a str, reading: &str, lemma: &str) -> Token<'a> {
    let fields = [
        "名詞", "普通名詞", "一般", "*", "*", "*", reading, lemma, text, reading, lemma, reading,
        "和", "*", "*", "*", "*",
    ];
    Token {
        text,
        details: Some(fields.iter().map(|f| f.to_string()).collect()),
    }
}

/// A token that is its own dictionary form.
fn same<'a>(text: &'a str, reading: &str) -> Token<'a> {
    word(text, reading, text)
}

fn unknown(text: &str) -> Token<'_> {
    Token {
        text,
        details: Some(vec!["UNK".to_string()]),
    }
}

fn bare(text: &str) -> Token<'_> {
    Token {
        text,
        details: None,
    }
}

fn texts<'a>(fragments: &'a [InternalToken<'_>]) -> Vec<&'a str> {
    fragments.iter().map(|f| f.original_text.as_ref()).collect()
}

fn readings(entries: &[&TextEntry]) -> Vec<String> {
    entries.iter().map(|e| e.reading.clone()).collect()
}

struct Case<'a> {
    tokens: Vec<Token<'a>>,
    input: &'a str,
    expected_uncommon_only: &'a str,
    expected_all: &'a str,
}

fn scripture_dictionary() -> Dictionary {
    build(
        &lines(&[
            "神|かみ|0:かみ",
            "神|しん|0:しん",
            "光|こう|0:こう",
            "光|ひかり|0:ひかり",
            "言う|いう|0:い",
            "言う|ゆう|0:ゆ",
            "全|ぜん|0:ぜん",
            "単|たん|0:たん",
            "射|しゃ|0:しゃ",
            "計算機科学|けいさんきかがく|0:けい;1:さん;2:き;3:か;4:がく",
            "計算|けいさん|0:けい;1:さん",
            "科学|かがく|0:か;1:がく",
            "継続|けいぞく|0:けい;1:ぞく",
            "実行中|じっこうちゅう|0:じっ;1:こう;2:ちゅう",
            "実行|じっこう|0:じっ;1:こう",
            "時点|じてん|0:じ;1:てん",
            "評価|ひょうか|0:ひょう;1:か",
            "残り|のこり|0:のこ",
            "表現|ひょうげん|0:ひょう;1:げん",
            "手続き|てつづき|0:て;1:つづ",
            "関数|かんすう|0:かん;1:すう",
        ]),
        &[
            common("神", "かみ"),
            common("光", "ひかり"),
            common("言う", "いう"),
            common("計算", "けいさん"),
            common("科学", "かがく"),
            common("継続", "けいぞく"),
            common("実行", "じっこう"),
            common("時点", "じてん"),
            common("評価", "ひょうか"),
            common("残り", "のこり"),
            common("表現", "ひょうげん"),
            common("手続き", "てつづき"),
        ],
    )
    .unwrap()
}

fn scripture_tokens() -> Vec<Token<'static>> {
    vec![
        same("神", "カミ"),
        same("は", "ワ"),
        same("「", ""),
        same("光", "ヒカリ"),
        word("あれ", "アレ", "ある"),
        same("」", ""),
        same("と", "ト"),
        word("言わ", "イワ", "言う"),
        word("れ", "レ", "れる"),
        same("た", "タ"),
        same("。", ""),
        same("すると", "スルト"),
        same("光", "ヒカリ"),
        same("が", "ガ"),
        word("あっ", "アッ", "ある"),
        same("た", "タ"),
        same("。", ""),
    ]
}

#[test]
fn conversions() {
    let tests = [
        Case {
            tokens: scripture_tokens(),
            input: "神は「光あれ」と言われた。すると光があった。",
            expected_uncommon_only:
                "神は「光あれ」と言われた。すると光があった。",
            expected_all:
                "[神]{かみ}は「[光]{ひかり}あれ」と[言]{い}われた。すると[光]{ひかり}があった。",
        },
        Case {
            tokens: vec![same("全", "ゼン"), same("単", "タン"), same("射", "シャ"), same("。", "")],
            input: "全単射。",
            expected_uncommon_only: "[全]{ぜん}[単]{たん}[射]{しゃ}。",
            expected_all: "[全]{ぜん}[単]{たん}[射]{しゃ}。",
        },
        Case {
            tokens: vec![
                same("計算", "ケーサン"),
                same("機", "キ"),
                same("科学", "カガク"),
                same("に", "ニ"),
                word("おける", "オケル", "おく"),
                same("継続", "ケーゾク"),
                same("と", "ト"),
                same("は", "ワ"),
                same("、", ""),
                same("プログラム", "プログラム"),
                same("を", "オ"),
                same("実行", "ジッコー"),
                same("中", "チュー"),
                same("の", "ノ"),
                same("ある", "アル"),
                same("時点", "ジテン"),
                same("に", "ニ"),
                word("おい", "オイ", "おく"),
                same("て", "テ"),
                same("、", ""),
                same("評価", "ヒョーカ"),
                word("さ", "サ", "する"),
                word("れ", "レ", "れる"),
                same("て", "テ"),
                word("い", "イ", "いる"),
                same("ない", "ナイ"),
                same("残り", "ノコリ"),
                same("の", "ノ"),
                same("プログラム", "プログラム"),
                same("を", "オ"),
                same("表現", "ヒョーゲン"),
                same("する", "スル"),
                same("もの", "モノ"),
                word("で", "デ", "だ"),
                word("あり", "アリ", "ある"),
                same("、", ""),
                same("手続き", "テツズキ"),
                same("あるいは", "アルイワ"),
                same("関数", "カンスー"),
                same("と", "ト"),
                word("し", "シ", "する"),
                same("て", "テ"),
                same("表現", "ヒョーゲン"),
                word("さ", "サ", "する"),
                same("れる", "レル"),
                same("もの", "モノ"),
                word("で", "デ", "だ"),
                same("ある", "アル"),
                same("。", ""),
            ],
            input: "計算機科学における継続とは、プログラムを実行中のある時点において、評価されていない残りのプログラムを表現するものであり、手続きあるいは関数として表現されるものである。",
            expected_uncommon_only: "[計]{けい}[算]{さん}[機]{き}[科]{か}[学]{がく}における継続とは、プログラムを[実]{じっ}[行]{こう}[中]{ちゅう}のある時点において、評価されていない残りのプログラムを表現するものであり、手続きあるいは[関]{かん}[数]{すう}として表現されるものである。",
            expected_all: "[計]{けい}[算]{さん}[機]{き}[科]{か}[学]{がく}における[継]{けい}[続]{ぞく}とは、プログラムを[実]{じっ}[行]{こう}[中]{ちゅう}のある[時]{じ}[点]{てん}において、[評]{ひょう}[価]{か}されていない[残]{のこ}りのプログラムを[表]{ひょう}[現]{げん}するものであり、[手]{て}[続]{つづ}きあるいは[関]{かん}[数]{すう}として[表]{ひょう}[現]{げん}されるものである。",
        },
    ];

    let dictionary = scripture_dictionary();

    for test in tests {
        assert_eq!(join_texts(&test.tokens, 0, test.tokens.len()), test.input);
        let annotated = annotate_tokens(&dictionary, &test.tokens, false);
        let result = annotated.render(&mut UncommonOnly, &Markdown);
        assert_eq!(result, test.expected_uncommon_only);

        let result = annotated.render(&mut All, &Markdown);
        assert_eq!(result, test.expected_all);
    }
}

#[test]
fn fragments_reproduce_the_tokens() {
    let dictionary = scripture_dictionary();
    let tokens = scripture_tokens();
    let annotated = annotate_tokens(&dictionary, &tokens, false);
    let whole: String = annotated.fragments.iter().map(|f| f.text.as_ref()).collect();
    assert_eq!(whole, "神は「光あれ」と言われた。すると光があった。");
    let none = annotate_tokens(&dictionary, &[], false);
    assert!(none.fragments.is_empty());
    assert_eq!(none.render(&mut All, &Markdown), "");
}

#[test]
fn html_divides_the_document_as_markdown_does() {
    let dictionary = scripture_dictionary();
    let tokens = scripture_tokens();
    let annotated = annotate_tokens(&dictionary, &tokens, false);
    assert_eq!(
        annotated.render(&mut All, &Markdown),
        "[神]{かみ}は「[光]{ひかり}あれ」と[言]{い}われた。すると[光]{ひかり}があった。"
    );
    let ruby = |base: &str, reading: &str| {
        format!("<ruby>{base}<rp>(</rp><rt>{reading}</rt><rp>)</rp></ruby>")
    };
    let expected = format!(
        "{}は「{}あれ」と{}われた。すると{}があった。",
        ruby("神", "かみ"),
        ruby("光", "ひかり"),
        ruby("言", "い"),
        ruby("光", "ひかり")
    );
    assert_eq!(annotated.render(&mut All, &Html), expected);
}

#[test]
fn formats_by_name() {
    assert!(matches!(OutputFormat::Markdown.formatter(), Formatter::Markdown(_)));
    assert!(matches!(OutputFormat::Html.formatter(), Formatter::Html(_)));
    assert!(matches!(OutputFormat::Latex.formatter(), Formatter::Latex(_)));
    assert_eq!(OutputFormat::Markdown.formatter().format("神", "かみ"), "[神]{かみ}");
    assert_eq!(
        OutputFormat::Html.formatter().format("神", "かみ"),
        "<ruby>神<rp>(</rp><rt>かみ</rt><rp>)</rp></ruby>"
    );
    assert_eq!(OutputFormat::Latex.formatter().format("神", "かみ"), "\\ruby{神}{かみ}");
}

#[test]
fn katakana_readings_in_a_document() {
    let dictionary = scripture_dictionary();
    let tokens = scripture_tokens();
    let annotated = annotate_tokens(&dictionary, &tokens, false);
    let formatter = OutputFormat::Markdown.formatter();
    assert_eq!(
        annotated.render(&mut All, &WithKatakana(&formatter)),
        "[神]{カミ}は「[光]{ヒカリ}あれ」と[言]{イ}われた。すると[光]{ヒカリ}があった。"
    );
}

#[test]
fn only_the_first_occurrence_is_annotated() {
    let dictionary = scripture_dictionary();
    let tokens = scripture_tokens();
    let annotated = annotate_tokens(&dictionary, &tokens, false);
    let mut policy = FirstOccurrence::new(All);
    assert_eq!(
        annotated.render(&mut policy, &Markdown),
        "[神]{かみ}は「[光]{ひかり}あれ」と[言]{い}われた。すると光があった。"
    );
    assert_eq!(
        annotated.render(&mut policy, &Markdown),
        "神は「光あれ」と言われた。すると光があった。"
    );
}

#[test]
fn chosen_spans_that_do_not_fit_leave_the_fragment_plain() {
    let dictionary = build(&lines(&["言い方|いいかた|0:い;2:かた", "光|ひかり|0:ひかり"]), &[]).unwrap();
    let tokens = vec![word("言", "イ", "言い方"), same("光", "ヒカリ")];
    let annotated = annotate_tokens(&dictionary, &tokens, false);
    assert_eq!(annotated.render(&mut All, &Markdown), "言[光]{ひかり}");
}

#[test]
fn longest_run_of_tokens_becomes_one_fragment() {
    let dictionary = build(
        &lines(&["東京|とうきょう|0:とう;1:きょう", "東京都|とうきょうと|0:とう;1:きょう;2:と", "都|と|0:と"]),
        &[],
    )
    .unwrap();
    let tokens = vec![same("東", "ヒガシ"), same("京", "キョー"), same("都", "ト"), same("に", "ニ")];
    let fragments = segment(&dictionary, &tokens);
    assert_eq!(texts(&fragments), vec!["東京都", "に"]);
    assert_eq!(fragments[0].lookup_text, "東京都");
    assert_eq!(fragments[0].reading_hint, None);
    let annotated = annotate_tokens(&dictionary, &tokens, false);
    assert_eq!(
        annotated.render(&mut All, &Markdown),
        "[東]{とう}[京]{きょう}[都]{と}に"
    );
}

#[test]
fn window_shrinks_to_the_longest_entry() {
    let dictionary = build(&lines(&["ab|x|", "abcd|x|", "cx|x|"]), &[]).unwrap();
    let tokens = vec![bare("a"), bare("b"), bare("c"), bare("x")];
    assert_eq!(texts(&segment(&dictionary, &tokens)), vec!["ab", "cx"]);
    let tokens = vec![bare("a"), bare("b"), bare("c")];
    assert_eq!(texts(&segment(&dictionary, &tokens)), vec!["ab", "c"]);
    let tokens = vec![bare("a"), bare("b"), bare("c"), bare("d"), bare("e")];
    assert_eq!(texts(&segment(&dictionary, &tokens)), vec!["abcd", "e"]);
    let tokens = vec![bare("a"), bare("bc"), bare("d")];
    assert_eq!(texts(&segment(&dictionary, &tokens)), vec!["abcd"]);
    let tokens = vec![bare("a"), bare("bcd"), bare("a"), bare("b")];
    assert_eq!(texts(&segment(&dictionary, &tokens)), vec!["abcd", "ab"]);
}

#[test]
fn tokens_without_a_longer_entry_stay_single() {
    let dictionary = build(&lines(&["a|x|", "b|x|", "abc|x|"]), &[]).unwrap();
    let tokens = vec![bare("a"), bare("b"), bare("d")];
    assert_eq!(texts(&segment(&dictionary, &tokens)), vec!["a", "b", "d"]);
    assert!(segment(&dictionary, &[]).is_empty());
    assert_eq!(texts(&segment(&Dictionary::new(), &tokens)), vec!["a", "b", "d"]);
}

#[test]
fn candidates_of_a_window_begin_with_its_first_token() {
    let dictionary = build(&lines(&["ab|x|", "abcd|x|", "cx|x|", "b|x|"]), &[]).unwrap();
    let tokens = vec![bare("a"), bare("b"), bare("c")];
    let found = window_candidates(&dictionary, &tokens, 0, 1);
    let got: Vec<&str> = found.iter().map(|e| e.text.as_str()).collect();
    assert_eq!(got, vec!["ab", "abcd"]);
    let found = window_candidates(&dictionary, &tokens, 1, 3);
    let got: Vec<&str> = found.iter().map(|e| e.text.as_str()).collect();
    assert_eq!(got, vec!["b"]);
}

#[test]
fn single_token_is_looked_up_by_its_dictionary_form() {
    let token = word("言わ", "イワ", "言う");
    let fragment = InternalToken::of_token(&token);
    assert_eq!(fragment.original_text, "言わ");
    assert_eq!(fragment.lookup_text, "言う");
    assert_eq!(fragment.reading_hint.as_deref(), Some("いわ"));
}

#[test]
fn token_without_a_full_record_is_looked_up_as_it_stands() {
    for token in [unknown("謎"), bare("謎")] {
        let fragment = InternalToken::of_token(&token);
        assert_eq!(fragment.original_text, "謎");
        assert_eq!(fragment.lookup_text, "謎");
        assert_eq!(fragment.reading_hint, None);
    }
    let fragment = InternalToken::from_token("謎", None);
    assert_eq!(fragment.lookup_text, "謎");
    assert_eq!(fragment.reading_hint, None);
    let fragment = InternalToken::from(Cow::Owned("東京都".to_string()));
    assert_eq!(fragment.original_text, "東京都");
    assert_eq!(fragment.lookup_text, "東京都");
    assert_eq!(fragment.reading_hint, None);
}

#[test]
fn full_records_have_eleven_fields() {
    let fields: Vec<String> = (0..11).map(|i| format!("f{i}")).collect();
    let details = Details::try_from(&fields).unwrap();
    assert_eq!(details.reading_katakana(), "f9");
    assert_eq!(details.dictionary_form(), "f10");
    assert!(Details::try_from(&fields[..10]).is_err());
    assert!(Details::try_from(&[]).is_err());
    let fragment = InternalToken::from_token("x", Some(details));
    assert_eq!(fragment.lookup_text, "f10");
    assert_eq!(fragment.reading_hint.as_deref(), Some("f9"));
}

#[test]
fn readings_that_match_the_hint_come_first() {
    let dictionary = build(
        &lines(&["生|い|0:い", "生|き|0:き", "生|せい|0:せい", "生|なま|0:なま", "生|しょう|0:しょう"]),
        &[
            FrequencyEntry {
                kanji_element: "生".to_string(),
                kanji_common: true,
                reading_element: "なま".to_string(),
                reading_common: true,
            },
            FrequencyEntry {
                kanji_element: "生".to_string(),
                kanji_common: false,
                reading_element: "せい".to_string(),
                reading_common: true,
            },
        ],
    )
    .unwrap();
    let found = dictionary.lookup_word("生");
    assert_eq!(readings(&found), vec!["い", "き", "しょう", "せい", "なま"]);
    assert_eq!(
        readings(&rank(&found, None, false)),
        vec!["せい", "なま", "い", "き", "しょう"]
    );
    assert_eq!(
        readings(&rank(&found, Some("き"), false)),
        vec!["き", "せい", "なま", "い", "しょう"]
    );
    assert_eq!(
        readings(&rank(&found, Some("なま"), false)),
        vec!["なま", "せい", "い", "き", "しょう"]
    );
    assert_eq!(
        readings(&rank(&found, Some("よそ"), false)),
        vec!["せい", "なま", "い", "き", "しょう"]
    );
    assert_eq!(
        readings(&rank(&found, Some("なま"), true)),
        vec!["せい", "い", "き", "しょう"]
    );
    assert_eq!(
        readings(&rank(&found, None, true)),
        vec!["せい", "い", "き", "しょう"]
    );
    assert!(rank(&Vec::new(), Some("き"), false).is_empty());
}

#[test]
fn fragment_of_a_segment_holds_its_ranked_candidates() {
    let dictionary = scripture_dictionary();
    let token = same("光", "ヒカリ");
    let fragment = annotate_internal_token(&dictionary, InternalToken::of_token(&token), false);
    assert_eq!(fragment.text, "光");
    assert_eq!(readings(&fragment.annotations), vec!["ひかり", "こう"]);
    let fragment = annotate_internal_token(&dictionary, InternalToken::of_token(&token), true);
    assert_eq!(readings(&fragment.annotations), vec!["こう"]);
    let token = same("光", "コー");
    let fragment = annotate_internal_token(&dictionary, InternalToken::of_token(&token), false);
    assert_eq!(readings(&fragment.annotations), vec!["こう", "ひかり"]);
}

#[test]
fn rendering_takes_the_fragments_as_they_are_given() {
    let dictionary = scripture_dictionary();
    let text = AnnotatedText {
        fragments: vec![
            AnnotatedTextFragment {
                text: Cow::Borrowed("神"),
                annotations: dictionary.lookup_word("神"),
            },
            AnnotatedTextFragment::plain(Cow::Borrowed("の")),
            AnnotatedTextFragment {
                text: Cow::Borrowed("光"),
                annotations: dictionary.lookup_word("光"),
            },
        ],
    };
    assert_eq!(text.render(&mut All, &Markdown), "[神]{かみ}の[光]{こう}");
    assert_eq!(text.render(&mut UncommonOnly, &Markdown), "神の[光]{こう}");
}

#[test]
fn annotator_needs_the_dictionary_of_the_tokenizer() {
    let dictionary = scripture_dictionary();
    match Annotator::new(&dictionary) {
        Ok(_) => panic!("a tokenizer without its dictionary"),
        Err(AnnotatorError::Tokenizer(words)) => assert!(!words.is_empty()),
    }
}

#[test]
fn place_names() {
    let dictionary = build(
        &lines(&[
            "東京都|とうきょうと|0:とう;1:きょう;2:と",
            "東京|とうきょう|0:とう;1:きょう",
            "都|と|0:と",
            "都|みやこ|0:みやこ",
            "新宿|しんじゅく|0:しん;1:じゅく",
            "渋谷|しぶや|0:しぶ;1:や",
            "福岡市|ふくおかし|0:ふく;1:おか;2:し",
            "福岡|ふくおか|0:ふく;1:おか",
            "市|し|0:し",
            "市|いち|0:いち",
        ]),
        &[common("都", "みやこ"), common("市", "いち")],
    )
    .unwrap();
    let tests = vec![
        Case {
            tokens: vec![same("東京", "トーキョー"), same("都", "ト")],
            input: "東京都",
            expected_uncommon_only: "[東]{とう}[京]{きょう}[都]{と}",
            expected_all: "[東]{とう}[京]{きょう}[都]{と}",
        },
        Case {
            tokens: vec![same("新宿", "シンジュク")],
            input: "新宿",
            expected_uncommon_only: "[新]{しん}[宿]{じゅく}",
            expected_all: "[新]{しん}[宿]{じゅく}",
        },
        Case {
            tokens: vec![same("渋谷", "シブヤ")],
            input: "渋谷",
            expected_uncommon_only: "[渋]{しぶ}[谷]{や}",
            expected_all: "[渋]{しぶ}[谷]{や}",
        },
        Case {
            tokens: vec![same("福岡", "フクオカ"), same("市", "シ")],
            input: "福岡市",
            expected_uncommon_only: "[福]{ふく}[岡]{おか}[市]{し}",
            expected_all: "[福]{ふく}[岡]{おか}[市]{し}",
        },
    ];

    for test in tests {
        assert_eq!(join_texts(&test.tokens, 0, test.tokens.len()), test.input);
        let annotated = annotate_tokens(&dictionary, &test.tokens, false);
        let result = annotated.render(&mut UncommonOnly, &Markdown);
        assert_eq!(result, test.expected_uncommon_only);

        let result = annotated.render(&mut All, &Markdown);
        assert_eq!(result, test.expected_all);
    }
}

#[test]
fn blank_documents_have_no_fragments() {
    let dictionary = scripture_dictionary();
    for text in ["", " ", "\n\t ", "\u{3000}\u{3000}"] {
        assert!(annotate_document(&dictionary, text, None, false).fragments.is_empty());
        let tokens = vec![bare(text)];
        let annotated = annotate_document(&dictionary, text, Some(&tokens), false);
        assert!(annotated.fragments.is_empty());
        assert_eq!(annotated.render(&mut All, &Markdown), "");
    }
}

#[test]
fn document_with_its_tokens_is_annotated() {
    let dictionary = scripture_dictionary();
    let tokens = scripture_tokens();
    let text = "神は「光あれ」と言われた。すると光があった。";
    let annotated = annotate_document(&dictionary, text, Some(&tokens), false);
    assert_eq!(annotated.fragments.len(), tokens.len());
    assert_eq!(
        annotated.render(&mut All, &Markdown),
        "[神]{かみ}は「[光]{ひかり}あれ」と[言]{い}われた。すると[光]{ひかり}があった。"
    );
    let whole: String = annotated.fragments.iter().map(|f| f.text.as_ref()).collect();
    assert_eq!(whole, text);
}

#[test]
fn document_that_its_tokens_do_not_cover_stays_whole() {
    let dictionary = scripture_dictionary();
    let text = "神 は光";
    for tokens in [
        vec![same("神", "カミ"), same("は", "ワ"), same("光", "ヒカリ")],
        vec![same("神", "カミ"), same(" ", ""), same("は", "ワ")],
        vec![same("神", "カミ"), same(" ", ""), same("は", "ワ"), same("光", "ヒカリ"), same("。", "")],
        vec![],
    ] {
        let annotated = annotate_document(&dictionary, text, Some(&tokens), false);
        assert_eq!(annotated.fragments.len(), 1);
        assert_eq!(annotated.fragments[0].text, text);
        assert!(annotated.fragments[0].annotations.is_empty());
        assert_eq!(annotated.render(&mut All, &Markdown), text);
    }
    let annotated = annotate_document(&dictionary, text, None, false);
    assert_eq!(annotated.fragments.len(), 1);
    assert_eq!(annotated.render(&mut All, &Markdown), text);
    let tokens = vec![same("神", "カミ"), same(" ", ""), same("は", "ワ"), same("光", "ヒカリ")];
    let annotated = annotate_document(&dictionary, text, Some(&tokens), false);
    assert_eq!(annotated.render(&mut All, &Markdown), "[神]{かみ} は[光]{ひかり}");
}

#[test]
fn copies_render_alike() {
    let dictionary = scripture_dictionary();
    let tokens = scripture_tokens();
    let annotated = annotate_tokens(&dictionary, &tokens, false);
    let copy = annotated.clone();
    assert_eq!(copy.render(&mut All, &Html), annotated.render(&mut All, &Html));
    assert_eq!(dictionary.clone().len(), dictionary.len());
    assert!(AnnotatedText::default().fragments.is_empty());
}

#[test]
fn failed_tokenizer_makes_no_annotator() {
    let dictionary = scripture_dictionary();
    let outcome = lindera_tokenizer::tokenizer::Tokenizer::from_config(
        lindera_tokenizer::tokenizer::TokenizerConfig::default(),
    );
    assert!(outcome.is_err());
    match Annotator::from_outcome(&dictionary, outcome) {
        Ok(_) => panic!("an annotator without a tokenizer"),
        Err(AnnotatorError::Tokenizer(words)) => assert!(words.contains("Dictionary must be specified")),
    }
}

#[test]
fn reading_in_halfwidth_katakana_is_a_hint() {
    let dictionary = build(&lines(&["学|がく|0:がく", "学|まな|0:まな"]), &[common("学", "まな")]).unwrap();
    let fragment = InternalToken::of_token(&same("学", "ｶﾞｸ"));
    assert_eq!(fragment.reading_hint.as_deref(), Some("がく"));
    let annotated = annotate_internal_token(&dictionary, fragment, false);
    assert_eq!(readings(&annotated.annotations), vec!["がく", "まな"]);
    let fragment = InternalToken::of_token(&same("学", "ｶﾟｸ"));
    assert_eq!(fragment.reading_hint, None);
    let annotated = annotate_internal_token(&dictionary, fragment, false);
    assert_eq!(readings(&annotated.annotations), vec!["まな", "がく"]);
}

#[test]
fn skip_common_drops_candidates_whose_text_is_common() {
    let flagged = |text: &str, text_common: bool, reading: &str, reading_common: bool| FrequencyEntry {
        kanji_element: text.to_string(),
        kanji_common: text_common,
        reading_element: reading.to_string(),
        reading_common,
    };
    let dictionary = build(
        &lines(&[
            "生|なま|0:なま",
            "生|き|0:き",
            "生|せい|0:せい",
            "光|ひかり|0:ひかり",
            "音|おと|0:おと",
        ]),
        &[
            flagged("生", true, "なま", true),
            flagged("生", false, "せい", true),
            flagged("光", true, "ひかり", false),
        ],
    )
    .unwrap();
    let tokens = vec![same("生", "ナマ"), same("光", "ヒカリ"), same("音", "オト")];

    let kept = annotate_tokens(&dictionary, &tokens, false);
    assert_eq!(readings(&kept.fragments[0].annotations), vec!["なま", "せい", "き"]);
    assert_eq!(readings(&kept.fragments[1].annotations), vec!["ひかり"]);
    assert_eq!(readings(&kept.fragments[2].annotations), vec!["おと"]);
    assert_eq!(kept.render(&mut All, &Markdown), "[生]{なま}[光]{ひかり}[音]{おと}");

    let skipped = annotate_tokens(&dictionary, &tokens, true);
    assert_eq!(readings(&skipped.fragments[0].annotations), vec!["せい", "き"]);
    assert!(skipped.fragments[1].annotations.is_empty());
    assert_eq!(readings(&skipped.fragments[2].annotations), vec!["おと"]);
    assert_eq!(skipped.render(&mut All, &Markdown), "[生]{せい}光[音]{おと}");
    assert_eq!(skipped.render(&mut UncommonOnly, &Markdown), "生光[音]{おと}");

    let found = dictionary.lookup_word("生");
    assert_eq!(readings(&rank(&found, Some("なま"), true)), vec!["せい", "き"]);
    assert_eq!(readings(&rank(&found, Some("き"), true)), vec!["き", "せい"]);
    let text = "生光音";
    let annotated = annotate_document(&dictionary, text, Some(&tokens), true);
    assert_eq!(annotated.render(&mut All, &Markdown), "[生]{せい}光[音]{おと}");
}
