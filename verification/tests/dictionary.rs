use autoruby::dictionary::{
    build, BuildError, Dictionary, FrequencyEntry, Index, ReadingSpan, TextEntry,
};

fn lines(raw: &[&str]) -> Vec<String> {
    raw.iter().map(|l| l.to_string()).collect()
}

fn frequency(text: &str, text_common: bool, reading: &str, reading_common: bool) -> FrequencyEntry {
    FrequencyEntry {
        kanji_element: text.to_string(),
        kanji_common: text_common,
        reading_element: reading.to_string(),
        reading_common,
    }
}

fn keys(found: &[&TextEntry]) -> Vec<(String, String)> {
    found
        .iter()
        .map(|e| (e.text.clone(), e.reading.clone()))
        .collect()
}

fn key(text: &str, reading: &str) -> (String, String) {
    (text.to_string(), reading.to_string())
}

fn sample() -> Dictionary {
    build(
        &lines(&[
            "光|ひかり|0:ひかり",
            "神|かみ|0:かみ",
            "光る|ひかる|0:ひか",
            "神|しん|0:しん",
            "光|こう|0:こう",
            "神様|かみさま|0:かみ;1:さま",
            "光年|こうねん|0:こう;1:ねん",
            "a|b|",
        ]),
        &[],
    )
    .unwrap()
}

#[test]
fn entries_are_kept_in_key_order() {
    let d = sample();
    let all: Vec<(String, String)> = d
        .entries()
        .iter()
        .map(|e| (e.text.clone(), e.reading.clone()))
        .collect();
    assert_eq!(
        all,
        vec![
            key("a", "b"),
            key("光", "こう"),
            key("光", "ひかり"),
            key("光る", "ひかる"),
            key("光年", "こうねん"),
            key("神", "かみ"),
            key("神", "しん"),
            key("神様", "かみさま"),
        ]
    );
    assert_eq!(d.len(), 8);
    assert_eq!(d.get(0).unwrap().text, "a");
    assert!(d.get(8).is_none());
}

#[test]
fn exact_lookup_finds_all_readings_of_a_word() {
    let d = sample();
    assert_eq!(
        keys(&d.lookup_word("光")),
        vec![key("光", "こう"), key("光", "ひかり")]
    );
    assert_eq!(
        keys(&d.lookup_word("神")),
        vec![key("神", "かみ"), key("神", "しん")]
    );
    assert_eq!(keys(&d.lookup_word("光年")), vec![key("光年", "こうねん")]);
}

#[test]
fn exact_lookup_of_an_unknown_word_is_empty() {
    let d = sample();
    assert!(d.lookup_word("闇").is_empty());
    assert!(d.lookup_word("").is_empty());
    assert!(d.lookup_word("光り").is_empty());
    assert!(Dictionary::new().lookup_word("光").is_empty());
}

#[test]
fn prefix_lookup_finds_exact_and_longer_texts() {
    let d = sample();
    assert_eq!(
        keys(&d.lookup_prefixed("光")),
        vec![
            key("光", "こう"),
            key("光", "ひかり"),
            key("光る", "ひかる"),
            key("光年", "こうねん"),
        ]
    );
    assert_eq!(
        keys(&d.lookup_prefixed("神様")),
        vec![key("神様", "かみさま")]
    );
    assert!(d.lookup_prefixed("神様方").is_empty());
}

#[test]
fn prefix_lookup_with_the_empty_prefix_finds_everything() {
    let d = sample();
    assert_eq!(d.lookup_prefixed("").len(), 8);
}

#[test]
fn prefix_lookup_holds_every_exact_match() {
    let d = sample();
    for word in ["光", "神", "光る", "闇", "", "a", "神様"] {
        let exact = keys(&d.lookup_word(word));
        let prefixed = keys(&d.lookup_prefixed(word));
        for k in &exact {
            assert!(prefixed.contains(k));
        }
        let narrowed: Vec<(String, String)> =
            prefixed.into_iter().filter(|k| k.0 == word).collect();
        assert_eq!(narrowed, exact);
    }
}

#[test]
fn build_reads_spans() {
    let d = sample();
    let found = d.lookup_word("神様");
    let spans: Vec<(u8, u8, &str)> = found[0]
        .reading_spans
        .iter()
        .map(|s| (s.start_index, s.end_index, s.text.as_str()))
        .collect();
    assert_eq!(spans, vec![(0, 0, "かみ"), (1, 1, "さま")]);
    assert!(!found[0].text_is_common);
    assert!(!found[0].reading_is_common);
}

#[test]
fn build_reports_the_first_invalid_line() {
    assert_eq!(
        parse_error(&["光|ひかり|0:ひかり", "神|かみ|0:かみ;", "also bad"]),
        "神|かみ|0:かみ;"
    );
    let r = build(
        &lines(&["光|ひかり|0:ひかり", "神かみ", "also bad", "神|かみ|0:かみ"]),
        &[],
    );
    match r {
        Err(BuildError::Parse(line)) => assert_eq!(line, "神かみ"),
        _ => panic!("no parse error"),
    }
}

#[test]
fn build_error_in_words() {
    assert_eq!(
        BuildError::Parse("神かみ".to_string()).message(),
        "Failed to parse line: 神かみ"
    );
    assert_eq!(
        BuildError::Io("broken pipe".to_string()).message(),
        "IO error: broken pipe"
    );
}

#[test]
fn build_of_no_lines_is_empty() {
    let d = build(&[], &[]).unwrap();
    assert_eq!(d.len(), 0);
}

#[test]
fn later_line_with_the_same_key_stays() {
    let d = build(
        &lines(&["神|かみ|0:かみ", "光|ひかり|0:ひかり", "神|かみ|0:カミ"]),
        &[],
    )
    .unwrap();
    assert_eq!(d.len(), 2);
    let found = d.lookup_word("神");
    assert_eq!(found.len(), 1);
    assert_eq!(found[0].reading_spans[0].text, "カミ");
}

#[test]
fn frequencies_mark_the_entry_with_their_key() {
    let d = build(
        &lines(&["神|かみ|0:かみ", "神|しん|0:しん", "光|ひかり|0:ひかり"]),
        &[
            frequency("神", true, "かみ", false),
            frequency("光", false, "ひかり", true),
            frequency("神", true, "じん", true),
            frequency("闇", true, "やみ", true),
        ],
    )
    .unwrap();
    let found = d.lookup_word("神");
    assert_eq!((found[0].text_is_common, found[0].reading_is_common), (true, false));
    assert_eq!((found[1].text_is_common, found[1].reading_is_common), (false, false));
    let found = d.lookup_word("光");
    assert_eq!((found[0].text_is_common, found[0].reading_is_common), (false, true));
    assert_eq!(d.len(), 3);
}

#[test]
fn later_frequency_with_the_same_key_stays() {
    let d = build(
        &lines(&["神|かみ|0:かみ"]),
        &[
            frequency("神", true, "かみ", true),
            frequency("神", false, "かみ", true),
        ],
    )
    .unwrap();
    let found = d.lookup_word("神");
    assert_eq!((found[0].text_is_common, found[0].reading_is_common), (false, true));
}

#[test]
fn building_twice_gives_the_same_lookups() {
    let raw = lines(&[
        "神|かみ|0:かみ",
        "光|ひかり|0:ひかり",
        "神|しん|0:しん",
        "光|ひかり|0:ヒカリ",
    ]);
    let corpus = [frequency("神", true, "かみ", true)];
    let first = build(&raw, &corpus).unwrap();
    let second = build(&raw, &corpus).unwrap();
    for word in ["神", "光", "闇", ""] {
        let a = first.lookup_word(word);
        let b = second.lookup_word(word);
        assert_eq!(format!("{a:?}"), format!("{b:?}"));
    }
    assert_eq!(format!("{:?}", first.entries()), format!("{:?}", second.entries()));
}

fn entry(text: &str, reading: &str, common: bool, spans: &[(u8, u8)]) -> TextEntry {
    TextEntry {
        text: text.to_string(),
        text_is_common: common,
        reading: reading.to_string(),
        reading_is_common: common,
        reading_spans: spans
            .iter()
            .map(|(start_index, end_index)| ReadingSpan {
                start_index: *start_index,
                end_index: *end_index,
                text: reading.to_string(),
            })
            .collect(),
    }
}

#[test]
fn dictionary_of_entries_keeps_flags_and_order() {
    let d = Dictionary::from_entries(vec![
        entry("神", "かみ", false, &[(0, 0)]),
        entry("光", "ひかり", true, &[(0, 0)]),
        entry("神", "かみ", true, &[(0, 0)]),
    ])
    .unwrap();
    assert_eq!(d.len(), 2);
    assert_eq!(d.get(0).unwrap().text, "光");
    assert!(d.get(0).unwrap().text_is_common);
    assert!(d.get(1).unwrap().text_is_common);
    assert_eq!(Dictionary::from_entries(Vec::new()).unwrap().len(), 0);
}

#[test]
fn dictionary_of_entries_needs_ascending_spans() {
    let good = || entry("神", "かみ", false, &[(0, 0), (1, 2), (3, 3)]);
    assert!(Dictionary::from_entries(vec![good()]).is_some());
    for spans in [
        vec![(0, 0), (0, 0)],
        vec![(1, 1), (0, 0)],
        vec![(0, 1), (1, 1)],
        vec![(1, 0)],
        vec![(0, 0), (2, 1)],
    ] {
        assert!(!entry("a", "b", false, &spans).has_ordered_spans());
        assert!(Dictionary::from_entries(vec![good(), entry("a", "b", false, &spans)]).is_none());
        assert!(Dictionary::from_entries(vec![entry("a", "b", false, &spans), good()]).is_none());
    }
}

#[test]
fn ordered_spans_are_recognised() {
    assert!(entry("東京都", "x", false, &[(0, 0), (1, 1), (2, 2)]).has_ordered_spans());
    assert!(entry("今日", "x", false, &[(0, 1)]).has_ordered_spans());
    assert!(entry("今日は", "x", false, &[(0, 1), (2, 2)]).has_ordered_spans());
    assert!(entry("かな", "x", false, &[]).has_ordered_spans());
    assert!(entry("a", "x", false, &[(0, 255)]).has_ordered_spans());
    assert!(!entry("a", "x", false, &[(0, 0), (0, 0)]).has_ordered_spans());
    assert!(!entry("a", "x", false, &[(1, 1), (0, 0)]).has_ordered_spans());
    assert!(!entry("a", "x", false, &[(0, 1), (1, 1)]).has_ordered_spans());
    assert!(!entry("a", "x", false, &[(2, 1)]).has_ordered_spans());
}

fn parse_error(raw: &[&str]) -> String {
    match build(&lines(raw), &[]) {
        Err(BuildError::Parse(line)) => line,
        _ => panic!("no parse error"),
    }
}

#[test]
fn line_with_text_behind_the_span_list_is_invalid() {
    assert_eq!(parse_error(&["漢字|かんじ|0:かん;x"]), "漢字|かんじ|0:かん;x");
    for line in [
        "a|b|junk",
        "a|b|0:x;",
        "a|b|0:x;1",
        "a|b|0:x;1:",
        "a|b|0:x\n",
        "a|b|0:x;999:y",
        "a|b|0-:x",
        "a|b| 0:x",
        "a|b|;0:x",
        "有る|ある|0:あ\n次|つぎ|0:つぎ",
    ] {
        assert_eq!(parse_error(&[line]), line);
        assert!(TextEntry::from_line(line).is_none());
    }
}

#[test]
fn line_whose_spans_do_not_ascend_is_invalid() {
    for line in [
        "a|b|0:x;0:y",
        "abc|d|1:x;0:y",
        "abc|d|0-1:x;1:y",
        "abc|d|2-0:x",
        "abc|d|1-0:x",
        "abc|d|0:x;2-1:y",
    ] {
        assert_eq!(parse_error(&[line]), line);
        assert!(TextEntry::from_line(line).is_none());
    }
}

#[test]
fn any_invalid_line_fails_the_whole_build() {
    let good = ["光|ひかり|0:ひかり", "神|かみ|0:かみ", "今日|きょう|0-1:きょう", "かな|かな|"];
    for bad in ["漢字|かんじ|0:かん;x", "神かみ", "神|かみ", "a|b|1:x;0:y", ""] {
        for at in 0..=good.len() {
            let mut raw: Vec<&str> = good.to_vec();
            raw.insert(at, bad);
            assert_eq!(parse_error(&raw), bad);
            raw.push("also|bad");
            assert_eq!(parse_error(&raw), bad);
        }
    }
    assert!(build(&lines(&good), &[]).is_ok());
}

#[test]
fn every_built_entry_has_ascending_spans() {
    let d = build(
        &lines(&[
            "東京都|とうきょうと|0:とう;1:きょう;2:と",
            "今日|きょう|0-1:きょう",
            "言い方|いいかた|0:い;2:かた",
            "かな|かな|",
            "abcdef|x|0-1:x;3:y;4-5:z",
        ]),
        &[],
    )
    .unwrap();
    assert_eq!(d.len(), 5);
    for e in d.entries() {
        assert!(e.has_ordered_spans());
        for pair in e.reading_spans.windows(2) {
            assert!(pair[0].end_index < pair[1].start_index);
        }
        for span in &e.reading_spans {
            assert!(span.start_index <= span.end_index);
        }
    }
}

#[test]
fn entry_of_a_line() {
    let e = TextEntry::from_line("今日は|きょうは|0-1:きょう;2:は").unwrap();
    assert_eq!(e.text, "今日は");
    assert_eq!(e.reading, "きょうは");
    assert!(!e.text_is_common && !e.reading_is_common);
    let spans: Vec<(u8, u8, &str)> = e
        .reading_spans
        .iter()
        .map(|s| (s.start_index, s.end_index, s.text.as_str()))
        .collect();
    assert_eq!(spans, vec![(0, 1, "きょう"), (2, 2, "は")]);
    assert!(TextEntry::from_line("||").unwrap().reading_spans.is_empty());
    let e = TextEntry::from_line("a|b|0:x|c").unwrap();
    assert_eq!(e.reading_spans[0].text, "x|c");
}

#[test]
fn index_keys_can_be_made() {
    let least = Index::from("神");
    let full = Index::new("神", "かみ");
    assert_eq!(format!("{least:?}"), "Index { text: \"神\", reading: \"\" }");
    assert_eq!(format!("{full:?}"), "Index { text: \"神\", reading: \"かみ\" }");
}

#[test]
fn order_is_by_code_point_as_for_strings() {
    let mut words = vec!["神", "光", "a", "", "光る", "ab", "B", "光年", "〃", "𠮟", "ｱ"];
    let raw: Vec<String> = words.iter().map(|w| format!("{w}|x|")).collect();
    let d = build(&raw, &[]).unwrap();
    let got: Vec<String> = d.entries().iter().map(|e| e.text.clone()).collect();
    words.sort();
    let want: Vec<String> = words.iter().map(|w| w.to_string()).collect();
    assert_eq!(got, want);
}

#[test]
fn index_agrees_with_an_ordered_map() {
    let syllables = ["あ", "い", "神", "光", "a", "b", "年", "𠮟", "ｱ", ""];
    let mut state: u64 = 0x9E3779B97F4A7C15;
    let mut next = |bound: usize| -> usize {
        state = state
            .wrapping_mul(6364136223846793005)
            .wrapping_add(1442695040888963407);
        ((state >> 33) as usize) % bound
    };
    let mut word = |next: &mut dyn FnMut(usize) -> usize| -> String {
        let len = next(4);
        (0..len).map(|_| syllables[next(syllables.len())]).collect()
    };
    let mut raw = Vec::new();
    let mut want = std::collections::BTreeMap::new();
    for i in 0..5000 {
        let text = word(&mut next);
        let reading = word(&mut next);
        raw.push(format!("{text}|{reading}|0:{i}"));
        want.insert((text, reading), i.to_string());
    }
    let d = build(&raw, &[]).unwrap();
    let got: Vec<((String, String), String)> = d
        .entries()
        .iter()
        .map(|e| {
            (
                (e.text.clone(), e.reading.clone()),
                e.reading_spans[0].text.clone(),
            )
        })
        .collect();
    let want: Vec<((String, String), String)> = want.into_iter().collect();
    assert_eq!(got.len(), want.len());
    assert_eq!(got, want);
    for text in ["", "あ", "神", "神光", "光a", "zz"] {
        let exact: Vec<(String, String)> = want
            .iter()
            .filter(|(k, _)| k.0 == text)
            .map(|(k, _)| k.clone())
            .collect();
        assert_eq!(keys(&d.lookup_word(text)), exact);
        let prefixed: Vec<(String, String)> = want
            .iter()
            .filter(|(k, _)| k.0.starts_with(text))
            .map(|(k, _)| k.clone())
            .collect();
        assert_eq!(keys(&d.lookup_prefixed(text)), prefixed);
    }
}

#[test]
fn lower_bound_is_where_a_scan_starts() {
    let d = sample();
    assert_eq!(d.lower_bound(&Index::from("")), 0);
    assert_eq!(d.lower_bound(&Index::from("a")), 0);
    assert_eq!(d.lower_bound(&Index::new("a", "b")), 0);
    assert_eq!(d.lower_bound(&Index::new("a", "c")), 1);
    assert_eq!(d.lower_bound(&Index::from("光")), 1);
    assert_eq!(d.lower_bound(&Index::new("光", "ひかり")), 2);
    assert_eq!(d.lower_bound(&Index::new("光", "ん")), 3);
    assert_eq!(d.lower_bound(&Index::from("神様方")), 8);
}
