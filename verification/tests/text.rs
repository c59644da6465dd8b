use autoruby::format::{Format, Markdown, WithKatakana};
use autoruby::kana::contains_kanji;
use autoruby::order::{order_of, Order};
use autoruby::segment::{Details, InternalToken};
use autoruby::text::{blank, chars_of, equals_chars, same_text, starts_with_chars, white_space};

#[test]
fn characters_of_a_string() {
    assert_eq!(chars_of("神は光"), vec!['神', 'は', '光']);
    assert!(chars_of("").is_empty());
}

#[test]
fn prefixes_and_equality_by_character() {
    assert!(starts_with_chars("光年", &['光']));
    assert!(starts_with_chars("光年", &[]));
    assert!(starts_with_chars("光年", &['光', '年']));
    assert!(!starts_with_chars("光年", &['光', '年', '生']));
    assert!(!starts_with_chars("光年", &['年']));
    assert!(equals_chars("光年", &['光', '年']));
    assert!(!equals_chars("光年", &['光']));
    assert!(!equals_chars("光", &['光', '年']));
    assert!(equals_chars("", &[]));
    assert!(same_text("神", "神"));
    assert!(!same_text("神", "神様"));
}

#[test]
fn white_space_is_what_the_standard_library_says() {
    for code in 0..=0x10FFFFu32 {
        if let Some(c) = char::from_u32(code) {
            assert_eq!(white_space(c), c.is_whitespace());
        }
    }
}

#[test]
fn blank_texts() {
    assert!(blank(""));
    assert!(blank(" \t\r\n\u{3000}\u{a0}"));
    assert!(!blank(" a "));
    assert!(!blank("\u{200b}"));
    for text in ["", " ", "  神 ", "\n\n", "x"] {
        assert_eq!(blank(text), text.trim().is_empty());
    }
}

#[test]
fn kanji_are_the_code_points_of_one_range() {
    for code in 0..=0x10FFFFu32 {
        if let Some(c) = char::from_u32(code) {
            let mut s = String::from("か");
            s.push(c);
            assert_eq!(contains_kanji(&s), (0x4E00..=0x9FAF).contains(&code));
        }
    }
    assert!(!contains_kanji(""));
    assert!(!contains_kanji("かな カナ abc"));
    assert!(contains_kanji("ひらがなと漢字"));
}

#[test]
fn order_of_strings() {
    let w = |s: &str| -> Vec<char> { s.chars().collect() };
    assert_eq!(order_of("光", &w("光")), Order::Same);
    assert_eq!(order_of("", &w("")), Order::Same);
    assert_eq!(order_of("", &w("光")), Order::Before);
    assert_eq!(order_of("光", &w("")), Order::After);
    assert_eq!(order_of("光", &w("光年")), Order::Before);
    assert_eq!(order_of("光年", &w("光")), Order::After);
    assert_eq!(order_of("光", &w("神")), Order::Before);
    assert_eq!(order_of("神", &w("光")), Order::After);
    assert_eq!(order_of("ab", &w("b")), Order::Before);
}

#[test]
fn order_agrees_with_the_order_of_strings() {
    let words = ["", "a", "ab", "b", "B", "光", "光る", "光年", "神", "〃", "𠮟", "ｱ", "\u{10ffff}"];
    for a in words {
        for b in words {
            let chars: Vec<char> = b.chars().collect();
            let want = if a < b {
                Order::Before
            } else if a == b {
                Order::Same
            } else {
                Order::After
            };
            assert_eq!(order_of(a, &chars), want);
        }
    }
}

fn hint_of(reading: &str) -> Option<String> {
    let mut fields: Vec<String> = (0..11).map(|_| String::new()).collect();
    fields[9] = reading.to_string();
    let details = Details::try_from(&fields).unwrap();
    InternalToken::from_token("x", Some(details)).reading_hint
}

fn katakana_of(reading: &str) -> String {
    let shown = WithKatakana(&Markdown).format("x", reading);
    assert!(shown.starts_with("[x]{") && shown.ends_with('}'));
    shown["[x]{".len()..shown.len() - 1].to_string()
}

#[test]
fn kana_conversion_of_known_readings() {
    assert_eq!(hint_of("カミ").as_deref(), Some("かみ"));
    assert_eq!(hint_of("かみ").as_deref(), Some("かみ"));
    assert_eq!(hint_of("トウキョウ").as_deref(), Some("とうきょう"));
    assert_eq!(hint_of("スーパー").as_deref(), Some("すうぱあ"));
    assert_eq!(hint_of("漢字").as_deref(), Some("漢字"));
    assert_eq!(hint_of("").as_deref(), Some(""));
    assert_eq!(hint_of("ｶﾐ").as_deref(), Some("かみ"));
    assert_eq!(hint_of("ｶﾞｸ").as_deref(), Some("がく"));
    assert_eq!(katakana_of("かみ"), "カミ");
    assert_eq!(katakana_of("カミ"), "カミ");
    assert_eq!(katakana_of("とうきょう"), "トウキョウ");
    assert_eq!(katakana_of("漢字"), "漢字");
    assert_eq!(katakana_of(""), "");
}

#[test]
fn sound_mark_behind_a_katakana_that_takes_it_is_read_with_it() {
    assert_eq!(hint_of("ｶﾞ").as_deref(), Some("が"));
    assert_eq!(hint_of("ﾊﾟ").as_deref(), Some("ぱ"));
    assert_eq!(hint_of("ﾊﾞ").as_deref(), Some("ば"));
    assert_eq!(hint_of("ｳﾞ").as_deref(), Some("ゔ"));
    assert_eq!(hint_of("ｶﾞｯｺｳ").as_deref(), Some("がっこう"));
    assert_eq!(hint_of("ﾄﾞｱ").as_deref(), Some("どあ"));
    assert_eq!(hint_of("ﾎﾟｽﾄ").as_deref(), Some("ぽすと"));
    assert_eq!(autoruby::kana::hiragana("ｶﾞ").as_deref(), Some("が"));
    assert_eq!(autoruby::kana::hiragana("ガ").as_deref(), Some("が"));
    assert!(autoruby::kana::is_convertible("ｶﾞｷﾞｸﾞ"));
    assert!(autoruby::kana::is_convertible("ｶ"));
    assert!(autoruby::kana::is_convertible(""));
}

#[test]
fn sound_mark_that_nothing_takes_gives_no_hint() {
    for reading in [
        "ﾞ", "ﾟ", "ｶﾟ", "ｱﾞ", "ﾝﾞ", "ｲﾞ", "カﾞ", "かﾟ", "aﾞ", "ｶﾞﾞ", "ﾊﾟﾟ", "ﾊﾞﾟ", "ｶﾐﾞ", "ｰﾞ",
        "ｴﾞ", "ｵﾞ", "ﾅﾞ", "ﾏﾟ", "ｯﾞ", "ｦﾞ",
    ] {
        assert_eq!(hint_of(reading), None);
        assert!(!autoruby::kana::is_convertible(reading));
        assert_eq!(autoruby::kana::hiragana(reading), None);
    }
}

/// Whether every halfwidth sound mark of `text` stands directly behind a
/// halfwidth katakana that takes it.
fn marks_are_taken(text: &str) -> bool {
    let chars: Vec<char> = text.chars().collect();
    (0..chars.len()).all(|i| match chars[i] {
        'ﾞ' => i > 0 && "ｳｶｷｸｹｺｻｼｽｾｿﾀﾁﾂﾃﾄﾊﾋﾌﾍﾎ".contains(chars[i - 1]),
        'ﾟ' => i > 0 && "ﾊﾋﾌﾍﾎ".contains(chars[i - 1]),
        _ => true,
    })
}

#[test]
fn every_pair_of_a_character_and_a_sound_mark() {
    for code in 0..=0x10FFFFu32 {
        if let Some(c) = char::from_u32(code) {
            for mark in ['ﾞ', 'ﾟ'] {
                let s: String = [c, mark].iter().collect();
                assert_eq!(hint_of(&s).is_some(), marks_are_taken(&s));
            }
        }
    }
}

#[test]
fn halfwidth_texts_with_sound_marks() {
    let alphabet: Vec<char> = ('\u{ff61}'..='\u{ff9f}')
        .chain(['ﾞ', 'ﾟ', 'ﾞ', 'ﾟ', 'ﾞ', 'ﾟ', 'ー', 'ｰ', 'a', 'A', 'カ', 'か', '漢', ' ', '!'])
        .collect();
    let mut state: u64 = 0xD1B54A32D192ED03;
    let mut next = |bound: usize| -> usize {
        state = state
            .wrapping_mul(6364136223846793005)
            .wrapping_add(1442695040888963407);
        ((state >> 33) as usize) % bound
    };
    let mut taken = 0;
    for _ in 0..300_000 {
        let len = 1 + next(6);
        let s: String = (0..len).map(|_| alphabet[next(alphabet.len())]).collect();
        let want = marks_are_taken(&s);
        assert_eq!(hint_of(&s).is_some(), want);
        assert_eq!(autoruby::kana::is_convertible(&s), want);
        if want && s.contains(['ﾞ', 'ﾟ']) {
            taken += 1;
        }
        katakana_of(&s);
    }
    assert!(taken > 1000);
}

#[test]
fn kana_conversion_takes_any_character() {
    for code in 0..=0x10FFFFu32 {
        if let Some(c) = char::from_u32(code) {
            let mut s = String::new();
            s.push(c);
            assert_eq!(hint_of(&s).is_some(), code != 0xFF9E && code != 0xFF9F);
            katakana_of(&s);
        }
    }
}

#[test]
fn kana_conversion_takes_mixed_texts() {
    let alphabet: Vec<char> = ('\u{ff61}'..='\u{ff9d}')
        .chain('ぁ'..='ゖ')
        .chain('ァ'..='ヺ')
        .chain('a'..='z')
        .chain('A'..='Z')
        .chain([
            'ー', 'ｰ', '・', 'ヶ', 'ヵ', '-', ' ', '　', '!', '?', '.', ',', '/', '~', '[', ']',
            '‘', '’', '“', '”', '0', '9', '漢', '字', '々', '\u{3099}', '\u{309a}', 'ゝ', 'ヽ',
            'ō', 'ū', '\'', '１', 'Ａ', 'ａ',
        ])
        .collect();
    let mut state: u64 = 0x2545F4914F6CDD1D;
    let mut next = |bound: usize| -> usize {
        state = state
            .wrapping_mul(6364136223846793005)
            .wrapping_add(1442695040888963407);
        ((state >> 33) as usize) % bound
    };
    for _ in 0..200_000 {
        let len = 1 + next(6);
        let s: String = (0..len).map(|_| alphabet[next(alphabet.len())]).collect();
        assert!(hint_of(&s).is_some());
        katakana_of(&s);
    }
    let marked: Vec<char> = alphabet.iter().copied().chain(['ﾞ', 'ﾟ']).collect();
    for _ in 0..200_000 {
        let len = 1 + next(6);
        let s: String = (0..len).map(|_| marked[next(marked.len())]).collect();
        assert_eq!(hint_of(&s).is_some(), marks_are_taken(&s));
        katakana_of(&s);
    }
}
