use azookey::candidate::Candidate;
use azookey::config::{ConversionConfig, MagicConversionConfig, ZenzaiConfig};
use azookey::converter::NativeConverter;
use azookey::dictionary::Dictionary;
use azookey::dynamic::{CalendarDate, LocalDateTime};
use azookey::learning::LearningStore;
use azookey::user_dictionary::{EmojiDictionary, UserDictionary};

fn score(value: f64) -> i64 {
    (value * 4294967296.0).floor() as i64
}

fn dictionary(lines: &[(&str, f64)]) -> Dictionary {
    let mut d = Dictionary::new();
    for (line, value) in lines {
        d.add_csv_line(line, score(*value));
    }
    d.finish();
    d
}

fn converter_with(
    dictionary: Dictionary,
    user_dictionary: UserDictionary,
    emoji_dictionary: EmojiDictionary,
    learning: LearningStore,
) -> NativeConverter {
    NativeConverter::from_resources(
        dictionary,
        user_dictionary,
        emoji_dictionary,
        learning,
        String::new(),
        String::new(),
    )
}

fn plain_converter() -> NativeConverter {
    NativeConverter::new(String::new(), String::new())
}

fn candidates_of(converter: &NativeConverter) -> Vec<Candidate> {
    converter.candidates(false, None, None)
}

fn noon() -> LocalDateTime {
    LocalDateTime {
        date: CalendarDate::new(2026, 5, 20).unwrap(),
        hour: 12,
        minute: 0,
    }
}

#[test]
fn typo_correction_uses_nearby_dictionary_readings() {
    let mut converter = converter_with(
        dictionary(&[("かんじ,漢字,1,2,名詞,10", 10.0)]),
        UserDictionary::new(),
        EmojiDictionary::new(),
        LearningStore::new(),
    );

    converter.append_text("kanhi");
    let candidates = candidates_of(&converter);
    assert!(candidates.iter().any(|candidate| candidate.text == "漢字"));

    converter.configure_conversion(
        ConversionConfig {
            typo_correction_enabled: false,
            ..Default::default()
        },
        None,
    );
    let candidates = candidates_of(&converter);
    assert!(!candidates.iter().any(|candidate| candidate.text == "漢字"));
}

#[test]
fn dictionary_combines_multiple_segments() {
    let mut converter = converter_with(
        dictionary(&[("かく,書く,1,2,動詞,10", 10.0), ("こと,こと,1,2,名詞,5", 5.0)]),
        UserDictionary::new(),
        EmojiDictionary::new(),
        LearningStore::new(),
    );

    converter.append_text("kakukoto");
    let candidates = candidates_of(&converter);
    assert!(candidates
        .iter()
        .any(|candidate| { candidate.text == "書くこと" && candidate.corresponding_count == 4 }));
}

#[test]
fn returns_raw_candidate_without_dictionary() {
    let mut converter = plain_converter();
    converter.append_text("kanji");
    let candidates = candidates_of(&converter);
    assert_eq!(converter.hiragana(), "かんじ");
    assert_eq!(candidates[0].text, "かんじ");
}

#[test]
fn learned_candidate_is_ranked_first() {
    let mut converter = plain_converter();
    assert!(converter.record_commit("かんじ", "漢字"));

    converter.append_text("kanji");
    let candidates = candidates_of(&converter);
    assert_eq!(candidates[0].text, "漢字");
    assert_eq!(candidates[0].corresponding_count, 3);

    let stored = converter.learning.persist_content();
    let reloaded = LearningStore::parse(&stored);
    assert_eq!(reloaded.count("かんじ", "漢字"), 1);
}

#[test]
fn user_dictionary_is_ranked_before_learning() {
    let mut converter = converter_with(
        Dictionary::new(),
        UserDictionary::parse("かんじ\tユーザー漢字"),
        EmojiDictionary::new(),
        LearningStore::new(),
    );
    converter.record_commit("かんじ", "学習漢字");

    converter.append_text("kanji");
    let candidates = candidates_of(&converter);
    assert_eq!(candidates[0].text, "ユーザー漢字");
    assert!(candidates
        .iter()
        .any(|candidate| candidate.text == "学習漢字"));
}

#[test]
fn user_dictionary_ignores_part_of_speech_column() {
    let mut converter = converter_with(
        Dictionary::new(),
        UserDictionary::parse("かんじ\t漢字\t普通名詞"),
        EmojiDictionary::new(),
        LearningStore::new(),
    );
    converter.append_text("kanji");
    let candidates = candidates_of(&converter);
    assert_eq!(candidates[0].text, "漢字");
}

#[test]
fn prediction_can_be_disabled() {
    let mut converter = converter_with(
        Dictionary::new(),
        UserDictionary::parse("かんじ\t漢字"),
        EmojiDictionary::new(),
        LearningStore::new(),
    );
    converter.append_text("kan");
    assert!(candidates_of(&converter)
        .iter()
        .any(|candidate| candidate.text == "漢字"));

    converter.configure_conversion(
        ConversionConfig {
            prediction_enabled: false,
            ..Default::default()
        },
        None,
    );
    let candidates = candidates_of(&converter);
    assert!(!candidates.iter().any(|candidate| candidate.text == "漢字"));
}

#[test]
fn learning_can_be_disabled() {
    let mut converter = plain_converter();
    converter.configure_conversion(
        ConversionConfig {
            learning_enabled: false,
            ..Default::default()
        },
        None,
    );
    assert!(!converter.record_commit("かんじ", "漢字"));

    converter.append_text("kanji");
    let candidates = candidates_of(&converter);
    assert!(!candidates.iter().any(|candidate| candidate.text == "漢字"));
}

#[test]
fn emoji_dictionary_candidates_are_returned() {
    let mut converter = converter_with(
        Dictionary::new(),
        UserDictionary::new(),
        EmojiDictionary::parse("😀\tえがお,すまいる\t\n"),
        LearningStore::new(),
    );

    converter.append_text("egao");
    let candidates = candidates_of(&converter);
    assert_eq!(candidates[0].text, "😀");
}

#[test]
fn empty_composition_has_no_candidates() {
    let converter = plain_converter();
    assert!(candidates_of(&converter).is_empty());
}

#[test]
fn candidates_at_a_fixed_time_follow_the_source_order() {
    let mut converter = converter_with(
        dictionary(&[("きょう,今日,1,2,名詞,3", 3.0), ("きょう,京,1,2,名詞,1", 1.0)]),
        UserDictionary::parse("きょう\t教"),
        EmojiDictionary::new(),
        LearningStore::new(),
    );
    converter.append_text("kyou");
    let candidates = converter.candidates_at(noon(), false, None, None);
    let texts: Vec<&str> = candidates.iter().map(|c| c.text.as_str()).collect();
    assert_eq!(texts[0], "教");
    assert_eq!(texts[1], "2026年5月20日");
    assert!(texts.contains(&"今日"));
    assert!(texts.contains(&"京"));
    let today = texts.iter().position(|t| *t == "今日").unwrap();
    let capital = texts.iter().position(|t| *t == "京").unwrap();
    assert!(today < capital);
    assert_eq!(*texts.last().unwrap(), "きょう");
}

#[test]
fn live_conversion_off_leaves_out_the_dictionary() {
    let mut converter = converter_with(
        dictionary(&[("かんじ,漢字,1,2,名詞,10", 10.0)]),
        UserDictionary::new(),
        EmojiDictionary::new(),
        LearningStore::new(),
    );
    converter.configure_conversion(
        ConversionConfig {
            live_conversion_enabled: false,
            prediction_enabled: false,
            ..Default::default()
        },
        None,
    );
    converter.append_text("kanji");
    let candidates = candidates_of(&converter);
    assert_eq!(candidates.len(), 1);
    assert_eq!(candidates[0].text, "かんじ");
}

#[test]
fn editing_the_composition() {
    let mut converter = plain_converter();
    converter.append_text("ka");
    converter.append_text("nji");
    assert_eq!(converter.hiragana(), "かんじ");
    converter.remove_text();
    assert_eq!(converter.hiragana(), "かんj");
    converter.shrink_text(1);
    assert_eq!(converter.hiragana(), "んj");
    assert_eq!(converter.raw_input, "んj");
    converter.shrink_text(-4);
    assert_eq!(converter.hiragana(), "んj");
    converter.shrink_text(10);
    assert_eq!(converter.hiragana(), "");
    converter.append_text("a");
    converter.clear_text();
    assert_eq!(converter.hiragana(), "");
    assert_eq!(converter.raw_input, "");
    converter.remove_text();
    assert_eq!(converter.hiragana(), "");
}

#[test]
fn switching_the_romaji_table_recomposes() {
    let mut converter = plain_converter();
    converter.append_text("kz");
    assert_eq!(converter.hiragana(), "kz");
    converter.configure_conversion(
        ConversionConfig {
            input_style: "azik".to_string(),
            ..Default::default()
        },
        None,
    );
    assert_eq!(converter.hiragana(), "かん");
}

#[test]
fn outside_command_output_is_used_only_when_requested() {
    let mut converter = plain_converter();
    converter.append_text("kanji");
    converter.set_context("前の文".to_string());
    assert!(converter.magic_request().is_none());
    let ignored = converter.candidates_at(noon(), false, Some("外部候補"), None);
    assert!(!ignored.iter().any(|c| c.text == "外部候補"));

    converter.configure_magic_conversion(MagicConversionConfig {
        enabled: true,
        command_path: "magic.exe".to_string(),
        timeout_ms: 10,
    });
    let request = converter.magic_request().unwrap();
    assert_eq!(request.command_path, "magic.exe");
    assert_eq!(
        request.arguments,
        vec!["--reading", "かんじ", "--context", "前の文"]
    );
    assert_eq!(request.timeout_ms, 100);
    let used = converter.candidates_at(noon(), false, Some("外部候補\n"), None);
    assert!(used.iter().any(|c| c.text == "外部候補" && c.corresponding_count == 3));
}

#[test]
fn model_predictions_and_choice() {
    let mut converter = plain_converter();
    converter.append_text("kanji");
    let mut config = ZenzaiConfig::disabled("zenz.gguf".to_string(), "llama".to_string());
    config.enabled = true;
    config.prediction_enabled = true;
    converter.configure_zenzai(config);
    assert!(converter.prediction_request(false, "").is_none());
    let request = converter.prediction_request(true, "").unwrap();
    assert_eq!(request.command_path, "llama");
    assert_eq!(request.arguments[0], "-m");
    assert_eq!(request.arguments[1], "zenz.gguf");
    assert_eq!(request.arguments[3], "32");
    assert_eq!(request.timeout_ms, 1500);

    let candidates = converter.candidates_at(noon(), true, None, Some("1. 感じ\n2. 漢字\n"));
    assert_eq!(candidates[0].text, "感じ");
    assert_eq!(candidates[1].text, "漢字");
    assert!(converter.rerank_request(&candidates, false, "").is_none());
    assert!(converter.rerank_request(&candidates, true, "").is_some());
    let ranked = converter.rerank(candidates, true, Some("2"));
    assert_eq!(ranked[0].text, "漢字");
    assert_eq!(ranked[1].text, "感じ");
}

#[test]
fn personalization_is_read_only_for_the_model() {
    let mut converter = plain_converter();
    let mut config = ZenzaiConfig::disabled("m.gguf".to_string(), "llama".to_string());
    config.personalization_enabled = true;
    config.personalization_path = "me.txt".to_string();
    converter.configure_zenzai(config.clone());
    assert_eq!(converter.personalization_file(true), None);
    config.enabled = true;
    converter.configure_zenzai(config);
    assert_eq!(converter.personalization_file(false), None);
    assert_eq!(converter.personalization_file(true), Some("me.txt".to_string()));
}

#[test]
fn candidates_cover_part_of_the_reading() {
    let mut converter = converter_with(
        dictionary(&[("かん,缶,1,2,名詞,2", 2.0), ("かんじ,漢字,1,2,名詞,3", 3.0)]),
        UserDictionary::parse("か\t蚊"),
        EmojiDictionary::new(),
        LearningStore::new(),
    );
    converter.append_text("kanji");
    let h = converter.hiragana().to_string();
    let candidates = converter.candidates_at(noon(), false, None, None);
    assert!(candidates.iter().any(|c| c.text == "蚊" && c.subtext == "んじ"));
    for c in &candidates {
        assert!(1 <= c.corresponding_count && c.corresponding_count <= 3);
        assert_eq!(c.subtext, azookey::text::skip_chars(&h, c.corresponding_count as usize));
    }
}
