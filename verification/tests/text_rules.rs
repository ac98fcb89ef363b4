use azookey::engine::personalization_text;
use azookey::config::ZenzaiConfig;
use azookey::text::{katakana_to_hiragana, skip_chars, slice_chars, take_chars};
use azookey::typo::is_edit_distance_one_or_less;

#[test]
fn take_and_skip_split_a_text() {
    let text = "かんじへんかん";
    for n in 0..10 {
        let joined = format!("{}{}", take_chars(text, n), skip_chars(text, n));
        assert_eq!(joined, text);
    }
    assert_eq!(take_chars(text, 3), "かんじ");
    assert_eq!(skip_chars(text, 3), "へんかん");
    assert_eq!(skip_chars(text, 30), "");
    assert_eq!(slice_chars(text, 2, 5), "じへん");
    assert_eq!(slice_chars(text, 5, 30), "かん");
    assert_eq!(slice_chars(text, 30, 40), "");
}

#[test]
fn katakana_becomes_hiragana() {
    assert_eq!(katakana_to_hiragana("カンジ"), "かんじ");
    assert_eq!(katakana_to_hiragana("ヴァ"), "ゔぁ");
    assert_eq!(katakana_to_hiragana("ーabc漢"), "ーabc漢");
    assert_eq!(katakana_to_hiragana("ヷ"), "ヷ");
}

#[test]
fn edit_distance_of_at_most_one() {
    assert!(is_edit_distance_one_or_less("かんじ", "かんじ"));
    assert!(is_edit_distance_one_or_less("かんじ", "かんひ"));
    assert!(is_edit_distance_one_or_less("かんじ", "かじ"));
    assert!(is_edit_distance_one_or_less("かじ", "かんじ"));
    assert!(!is_edit_distance_one_or_less("かんじ", "かんじゃう"));
    assert!(!is_edit_distance_one_or_less("かんじ", "きんぎ"));
    assert_eq!(
        is_edit_distance_one_or_less("abcd", "abdc"),
        is_edit_distance_one_or_less("abdc", "abcd")
    );
    assert!(!is_edit_distance_one_or_less("abcd", "abdc"));
}

#[test]
fn personalization_is_cut_to_its_limit() {
    let mut config = ZenzaiConfig::disabled(String::new(), String::new());
    assert_eq!(personalization_text(&config, Some("abcdef")), "");
    config.personalization_enabled = true;
    assert_eq!(personalization_text(&config, Some("abcdef")), "");
    config.personalization_path = "profile.txt".to_string();
    assert_eq!(personalization_text(&config, Some("abcdef")), "abcdef");
    assert_eq!(personalization_text(&config, None), "");
    let long: String = "あ".repeat(5000);
    assert_eq!(personalization_text(&config, Some(&long)).chars().count(), 4096);
    assert_eq!(config.personalization_file(), Some("profile.txt".to_string()));
}

#[test]
fn zenzai_personalization_reads_bounded_text() {
    let mut config = ZenzaiConfig::disabled(String::new(), String::new());
    config.personalization_enabled = true;
    config.personalization_path = "personalization.txt".to_string();

    assert_eq!(personalization_text(&config, Some("abcdef")), "abcdef");
}
