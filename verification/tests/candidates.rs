use azookey::candidate::{
    dedupe_candidates, magic_candidates_from_output, promote_candidate, rerank_from_output,
    zenzai_candidates_from_output, Candidate,
};
use azookey::csv::parse_csv_line;

fn candidate(text: &str, subtext: &str, count: i32) -> Candidate {
    Candidate {
        text: text.to_string(),
        subtext: subtext.to_string(),
        corresponding_count: count,
    }
}

fn texts(candidates: &[Candidate]) -> Vec<String> {
    candidates.iter().map(|c| c.text.clone()).collect()
}

#[test]
fn parses_quoted_dictionary_csv_fields() {
    let fields = parse_csv_line(r#"カンジ,"漢,字",1,2,普通名詞,-12.5"#);
    assert_eq!(fields[0], "カンジ");
    assert_eq!(fields[1], "漢,字");
    assert_eq!(fields[5], "-12.5");

    let escaped = parse_csv_line(r#"ヨミ,"候補""A",1,2,普通名詞,-1"#);
    assert_eq!(escaped[1], "候補\"A");
}

#[test]
fn csv_line_without_quotes_splits_at_every_comma() {
    assert_eq!(parse_csv_line("a,,b,"), vec!["a", "", "b", ""]);
    assert_eq!(parse_csv_line(""), vec![""]);
}

#[test]
fn magic_conversion_parses_line_based_candidates() {
    let candidates = magic_candidates_from_output("いい感じの候補\n\n別候補\n", "よみ");
    assert_eq!(candidates.len(), 2);
    assert_eq!(candidates[0].text, "いい感じの候補");
    assert_eq!(candidates[0].corresponding_count, 2);
    assert_eq!(candidates[1].text, "別候補");
}

#[test]
fn zenzai_prediction_parses_numbered_candidates() {
    let candidates = zenzai_candidates_from_output("1. 候補A\n2) 候補B\n", "よみ");
    assert_eq!(candidates.len(), 2);
    assert_eq!(candidates[0].text, "候補A");
    assert_eq!(candidates[0].corresponding_count, 2);
    assert_eq!(candidates[1].text, "候補B");
}

#[test]
fn zenzai_prediction_keeps_three_candidates() {
    let candidates = zenzai_candidates_from_output("1、 一\n2. 二\n 3) 三\n4. 四\n", "よ");
    assert_eq!(texts(&candidates), vec!["一", "二", "三"]);
    assert_eq!(candidates[2].subtext, "");
    assert_eq!(candidates[2].corresponding_count, 1);
}

#[test]
fn magic_conversion_keeps_sixteen_trimmed_lines() {
    let output: String = (0..20).map(|i| format!("  候補{}  \r\n", i)).collect();
    let candidates = magic_candidates_from_output(&output, "かな");
    assert_eq!(candidates.len(), 16);
    assert_eq!(candidates[0].text, "候補0");
    assert_eq!(candidates[15].text, "候補15");
}

#[test]
fn dedupe_keeps_first_of_each_text_and_subtext() {
    let input = vec![
        candidate("漢字", "", 3),
        candidate("漢字", "は", 2),
        candidate("漢字", "", 1),
        candidate("感じ", "", 3),
    ];
    let out = dedupe_candidates(input);
    assert_eq!(out.len(), 3);
    assert_eq!(out[0], candidate("漢字", "", 3));
    assert_eq!(out[1], candidate("漢字", "は", 2));
    assert_eq!(out[2], candidate("感じ", "", 3));
}

#[test]
fn dedupe_returns_at_most_sixteen() {
    let input: Vec<Candidate> = (0..40).map(|i| candidate(&i.to_string(), "", 1)).collect();
    let out = dedupe_candidates(input);
    assert_eq!(out.len(), 16);
    assert_eq!(out[15].text, "15");
}

#[test]
fn dedupe_twice_changes_nothing() {
    let input = vec![candidate("a", "", 1), candidate("a", "", 1), candidate("b", "", 1)];
    let once = dedupe_candidates(input);
    let twice = dedupe_candidates(once.clone());
    assert_eq!(once, twice);
}

#[test]
fn promote_moves_the_chosen_candidate_to_the_front() {
    let list = vec![candidate("a", "", 1), candidate("b", "", 1), candidate("c", "", 1)];
    assert_eq!(texts(&promote_candidate(list.clone(), 2)), vec!["c", "a", "b"]);
    assert_eq!(texts(&promote_candidate(list.clone(), 0)), vec!["a", "b", "c"]);
    assert_eq!(texts(&promote_candidate(list, 3)), vec!["a", "b", "c"]);
}

#[test]
fn rerank_follows_the_first_digit_of_the_output() {
    let list = vec![candidate("a", "", 1), candidate("b", "", 1), candidate("c", "", 1)];
    assert_eq!(texts(&rerank_from_output(list.clone(), "番号: 3")), vec!["c", "a", "b"]);
    assert_eq!(texts(&rerank_from_output(list.clone(), "0")), vec!["a", "b", "c"]);
    assert_eq!(texts(&rerank_from_output(list.clone(), "none")), vec!["a", "b", "c"]);
    assert_eq!(texts(&rerank_from_output(list, "9")), vec!["a", "b", "c"]);
}

#[test]
fn quoted_fields_read_back() {
    let fields = vec!["漢,字", "候補\"A", "", "plain"];
    let line = fields
        .iter()
        .map(|f| format!("\"{}\"", f.replace('"', "\"\"")))
        .collect::<Vec<_>>()
        .join(",");
    assert_eq!(parse_csv_line(&line), fields);
    assert_eq!(parse_csv_line("a,b,c"), vec!["a", "b", "c"]);
}
