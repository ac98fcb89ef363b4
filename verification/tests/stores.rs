use azookey::dictionary::Dictionary;
use azookey::learning::LearningStore;
use azookey::user_dictionary::{EmojiDictionary, UserDictionary};
use azookey::user_entries::{parse_user_dictionary_entries, user_dictionary_content, UserDictionaryEntry};

fn entry(reading: &str, text: &str, part: &str) -> UserDictionaryEntry {
    UserDictionaryEntry {
        reading: reading.to_string(),
        text: text.to_string(),
        part_of_speech: part.to_string(),
    }
}

fn texts(candidates: &[azookey::candidate::Candidate]) -> Vec<String> {
    candidates.iter().map(|c| c.text.clone()).collect()
}

#[test]
fn learning_store_round_trip_keeps_counts() {
    let mut store = LearningStore::new();
    store.record_commit("かんじ", "漢字");
    store.record_commit("かんじ", "漢字");
    store.record_commit("あい", "愛");
    store.record_commit(" かんじ ", "感じ ");
    let content = store.persist_content();
    assert_eq!(content, "あい\t愛\t1\nかんじ\t感じ\t1\nかんじ\t漢字\t2");
    let reloaded = LearningStore::parse(&content);
    assert_eq!(reloaded.count("かんじ", "漢字"), 2);
    assert_eq!(reloaded.count("かんじ", "感じ"), 1);
    assert_eq!(reloaded.count("あい", "愛"), 1);
    assert_eq!(reloaded.count("あい", "藍"), 0);
    assert_eq!(reloaded.persist_content(), content);
}

#[test]
fn learning_ignores_empty_and_unchanged_commits() {
    let mut store = LearningStore::new();
    assert!(!store.record_commit("", "漢字"));
    assert!(!store.record_commit("かな", "  "));
    assert!(!store.record_commit("かな", " かな "));
    assert_eq!(store.persist_content(), "");
}

#[test]
fn learning_file_reading_rules() {
    let store = LearningStore::parse("よみ\tテキスト\nよみ\t読み\t0\n\tx\t3\nよみ\t黄泉\tnan\nよみ\t読み\t7\n");
    assert_eq!(store.count("よみ", "テキスト"), 1);
    assert_eq!(store.count("よみ", "読み"), 7);
    assert_eq!(store.count("よみ", "黄泉"), 1);
    assert_eq!(store.count("", "x"), 0);
}

#[test]
fn learned_lookups_rank_by_count_then_text() {
    let store = LearningStore::parse("かん\t缶\t1\nかん\t巻\t1\nかんじ\t漢字\t5\nかんじ\t幹事\t9\n");
    let prefixes = store.lookup_best_prefixes("かんじ");
    assert_eq!(texts(&prefixes), vec!["幹事", "漢字", "巻", "缶"]);
    assert_eq!(prefixes[2].subtext, "じ");
    let predictions = store.lookup_predictions("か");
    assert_eq!(texts(&predictions), vec!["幹事", "漢字", "巻", "缶"]);
}

#[test]
fn user_dictionary_entries_round_trip() {
    let entries = vec![
        entry(" かんじ ", "漢\t字", "名詞"),
        entry("", "空", ""),
        entry("よみ", "読み", ""),
        entry("a\r\nb", "c", " x\ty "),
    ];
    let content = user_dictionary_content(&entries);
    assert_eq!(content, "かんじ\t漢字\t名詞\nよみ\t読み\t\nab\tc\txy");
    let parsed = parse_user_dictionary_entries(&content);
    assert_eq!(parsed.len(), 3);
    assert_eq!(parsed[0].reading, "かんじ");
    assert_eq!(parsed[0].text, "漢字");
    assert_eq!(parsed[0].part_of_speech, "名詞");
    assert_eq!(parsed[1].part_of_speech, "");
    assert_eq!(parsed[2].reading, "ab");
    assert_eq!(parsed[2].part_of_speech, "xy");
}

#[test]
fn user_dictionary_entries_skip_incomplete_lines() {
    let parsed = parse_user_dictionary_entries("only\n\ta\t\nよみ\tよみ\t\t名詞\r\n");
    assert_eq!(parsed.len(), 1);
    assert_eq!(parsed[0].reading, "よみ");
    assert_eq!(parsed[0].part_of_speech, "名詞");
}

#[test]
fn user_dictionary_keeps_each_text_once() {
    let d = UserDictionary::parse("かな\t仮名\nかな\t仮名\nかな\t金\n  \t空\n");
    assert_eq!(texts(&d.lookup_best_prefixes("かな")), vec!["仮名", "金"]);
    assert_eq!(texts(&d.lookup_predictions("か")), vec!["仮名", "金"]);
    assert!(d.lookup_predictions("かな").is_empty());
}

#[test]
fn emoji_keywords_are_split_at_commas() {
    let d = EmojiDictionary::parse("😀\tえがお, すまいる\n😃\tえがお\n");
    assert_eq!(texts(&d.lookup_best_prefixes("えがお")), vec!["😀", "😃"]);
    assert_eq!(texts(&d.lookup_best_prefixes("すまいる")), vec!["😀"]);
}

#[test]
fn dictionary_sorts_by_score_and_drops_repeats() {
    let mut d = Dictionary::new();
    let unit: i64 = 1 << 32;
    d.add_csv_line("カンジ,感じ,1,2,名詞,1.5", unit + unit / 2);
    d.add_csv_line("かんじ,漢字,1,2,名詞,2", 2 * unit);
    d.add_csv_line("かんじ,漢字,1,2,名詞,-3", -3 * unit);
    d.add_csv_line("かんじ,幹事,1,2,名詞,abc", 0);
    d.add_csv_line("かん", 5 * unit);
    d.add_csv_line("かんじ,巨大,1,2,名詞,1e30", i64::MAX);
    d.add_csv_line("かんじ,極小,1,2,名詞,-1e30", i64::MIN);
    d.finish();
    assert_eq!(texts(&d.lookup_best_prefixes("かんじ")), vec!["巨大", "漢字", "感じ", "幹事", "極小"]);
    assert_eq!(texts(&d.lookup_predictions("かん")), vec!["巨大", "漢字", "感じ", "幹事", "極小"]);
    assert_eq!(texts(&d.lookup_typo_corrections("かんし")), vec!["巨大", "漢字", "感じ", "幹事", "極小"]);
    assert!(d.lookup_typo_corrections("かん").is_empty());
}

#[test]
fn dictionary_ranks_by_the_given_score() {
    let mut d = Dictionary::new();
    let unit: i64 = 1 << 32;
    d.add_csv_line("よみ,二,1,2,名詞,5", 5 * unit);
    d.add_csv_line("よみ,一,1,2,名詞,1e3", 1000 * unit);
    d.finish();
    assert_eq!(texts(&d.lookup_best_prefixes("よみ")), vec!["一", "二"]);
}

#[test]
fn newest_emoji_dictionary_file_is_chosen() {
    let names: Vec<String> = ["emoji_all_E15.1.txt", "readme.txt", "emoji_all_E16.0.txt", "emoji_all_E99.csv"]
        .iter()
        .map(|s| s.to_string())
        .collect();
    assert_eq!(
        azookey::user_dictionary::latest_emoji_file_name(&names),
        Some("emoji_all_E16.0.txt".to_string())
    );
    assert_eq!(azookey::user_dictionary::latest_emoji_file_name(&vec!["x.txt".to_string()]), None);
}
