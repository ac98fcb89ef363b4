use azookey::config::ConversionConfig;
use azookey::romaji::{roman_to_hiragana, InputTable};

#[test]
fn converts_romaji_to_hiragana() {
    assert_eq!(roman_to_hiragana("tokyo"), "ときょ");
    assert_eq!(roman_to_hiragana("toukyou"), "とうきょう");
    assert_eq!(roman_to_hiragana("gakkou"), "がっこう");
    assert_eq!(roman_to_hiragana("kanji"), "かんじ");
}

#[test]
fn converts_azik_input_to_hiragana() {
    let table = InputTable::azik();
    assert_eq!(table.convert("q"), "ん");
    assert_eq!(table.convert("kz"), "かん");
    assert_eq!(table.convert("kk"), "きん");
    assert_eq!(table.convert("kp"), "こう");
    assert_eq!(table.convert(";"), "っ");
    assert_eq!(table.convert(":"), "ー");
}

#[test]
fn loads_custom_input_table_before_standard_entries() {
    let table = InputTable::custom(Some("vv\tゔ\n# comment\nka\tヵ\n"));
    assert_eq!(table.convert("vv"), "ゔ");
    assert_eq!(table.convert("ka"), "ヵ");
    assert_eq!(table.convert("ki"), "き");
}

#[test]
fn custom_table_without_text_is_standard() {
    let table = InputTable::custom(None);
    assert_eq!(table.convert("kanji"), "かんじ");
    assert_eq!(table.convert("vv"), "っv");
}

#[test]
fn custom_table_lowercases_romaji_and_skips_bad_lines() {
    let table = InputTable::custom(Some("  XA\t  ア  \nnotab\n\t\tempty\n"));
    assert_eq!(table.convert("xa"), "ア");
    assert_eq!(table.convert("XA"), "ア");
}

#[test]
fn double_consonants_and_n_rules() {
    assert_eq!(roman_to_hiragana("kitte"), "きって");
    assert_eq!(roman_to_hiragana("nn"), "ん");
    assert_eq!(roman_to_hiragana("n"), "ん");
    assert_eq!(roman_to_hiragana("konya"), "こにゃ");
    assert_eq!(roman_to_hiragana("kon'ya"), "こん'や");
    assert_eq!(roman_to_hiragana("shinbun"), "しんぶん");
}

#[test]
fn uppercase_input_matches_lowercase_rows() {
    assert_eq!(roman_to_hiragana("KANJI"), "かんじ");
    assert_eq!(roman_to_hiragana("Ka"), "か");
}

#[test]
fn characters_outside_the_table_pass_through() {
    assert_eq!(roman_to_hiragana("1-2"), "1ー2");
    assert_eq!(roman_to_hiragana("漢a"), "漢あ");
    assert_eq!(roman_to_hiragana(""), "");
    assert_eq!(roman_to_hiragana("q"), "q");
}

#[test]
fn input_table_follows_the_configured_style() {
    let mut config = ConversionConfig::default();
    assert_eq!(InputTable::from_config(&config, None).convert("kz"), "kz");
    config.input_style = "azik".to_string();
    assert_eq!(InputTable::from_config(&config, None).convert("kz"), "かん");
    config.input_style = "custom".to_string();
    assert_eq!(
        InputTable::from_config(&config, Some("kz\tカズ")).convert("kz"),
        "カズ"
    );
    assert_eq!(InputTable::default().convert("kz"), "kz");
}

#[test]
fn custom_table_path_is_asked_for_the_custom_style_only() {
    let mut config = ConversionConfig::default();
    assert_eq!(config.custom_table_path(Some("fallback".to_string())), None);
    config.input_style = "custom".to_string();
    assert_eq!(
        config.custom_table_path(Some("fallback".to_string())),
        Some("fallback".to_string())
    );
    config.custom_input_table_path = Some("mine.tsv".to_string());
    assert_eq!(
        config.custom_table_path(Some("fallback".to_string())),
        Some("mine.tsv".to_string())
    );
}
