use azookey::dynamic::{dynamic_readings, japanese_weekday, CalendarDate, DynamicDictionary, LocalDateTime};

fn fixed_time() -> LocalDateTime {
    LocalDateTime {
        date: CalendarDate::new(2026, 5, 20).unwrap(),
        hour: 14,
        minute: 5,
    }
}

#[test]
fn dynamic_date_candidates_are_returned() {
    let now = fixed_time();

    let candidates = DynamicDictionary::lookup_best_prefixes_at("きょうは", now);
    assert_eq!(candidates[0].text, "2026年5月20日");
    assert_eq!(candidates[0].subtext, "は");
    assert_eq!(candidates[0].corresponding_count, 3);
    assert!(candidates
        .iter()
        .any(|candidate| candidate.text == "令和8年5月20日"));
    assert!(candidates
        .iter()
        .any(|candidate| candidate.text == "水曜日"));
}

#[test]
fn dynamic_time_candidates_are_returned() {
    let now = fixed_time();

    let candidates = DynamicDictionary::lookup_best_prefixes_at("いま", now);
    assert_eq!(candidates[0].text, "14:05");
    assert!(candidates
        .iter()
        .any(|candidate| candidate.text == "14時5分"));
}

#[test]
fn dynamic_date_predictions_are_returned() {
    let now = fixed_time();

    let candidates = DynamicDictionary::lookup_predictions_at("きょ", now);
    assert!(candidates
        .iter()
        .any(|candidate| candidate.text == "2026年5月20日"));
}

#[test]
fn calendar_dates_come_from_the_calendar() {
    let date = CalendarDate::new(2026, 5, 20).unwrap();
    assert_eq!(date.weekday, 3);
    assert!(CalendarDate::new(2026, 2, 30).is_none());
    assert!(CalendarDate::new(2026, 13, 1).is_none());
}

#[test]
fn relative_days_cross_month_and_year_ends() {
    let now = LocalDateTime {
        date: CalendarDate::new(2025, 12, 31).unwrap(),
        hour: 0,
        minute: 0,
    };
    let tomorrow = DynamicDictionary::lookup_best_prefixes_at("あした", now);
    assert_eq!(tomorrow[0].text, "2026年1月1日");
    assert_eq!(tomorrow[1].text, "2026/1/1");
    assert_eq!(tomorrow[2].text, "1月1日");
    assert_eq!(tomorrow[3].text, "木曜日");
    assert_eq!(tomorrow[4].text, "令和8年1月1日");
    let day_before = DynamicDictionary::lookup_best_prefixes_at("おととい", now);
    assert_eq!(day_before[0].text, "2025年12月29日");
    let next_year = DynamicDictionary::lookup_best_prefixes_at("らいねん", now);
    assert_eq!(next_year[0].text, "2026");
    let last_year = DynamicDictionary::lookup_best_prefixes_at("きょねん", now);
    assert_eq!(last_year[0].text, "2024");
}

#[test]
fn times_are_padded_to_two_digits() {
    let now = LocalDateTime {
        date: CalendarDate::new(2026, 1, 2).unwrap(),
        hour: 9,
        minute: 0,
    };
    let candidates = DynamicDictionary::lookup_best_prefixes_at("いま", now);
    assert_eq!(candidates[0].text, "09:00");
    assert_eq!(candidates[1].text, "9時0分");
}

#[test]
fn readings_without_clock_texts_give_nothing() {
    let now = fixed_time();
    assert!(DynamicDictionary::lookup_best_prefixes_at("かんじ", now).is_empty());
    assert!(DynamicDictionary::lookup_predictions_at("きょう", now).is_empty());
    assert!(DynamicDictionary::lookup_best_prefixes_at("", now).is_empty());
}

#[test]
fn predictions_cover_the_typed_reading() {
    let now = fixed_time();
    let candidates = DynamicDictionary::lookup_predictions_at("あ", now);
    assert!(candidates.iter().all(|c| c.subtext.is_empty() && c.corresponding_count == 1));
    assert_eq!(candidates.len(), 15);
    assert_eq!(candidates[0].text, "2026年5月21日");
}

#[test]
fn the_clock_gives_candidates_now() {
    let today = DynamicDictionary::lookup_best_prefixes("きょう");
    assert_eq!(today.len(), 5);
    assert!(today[3].text.ends_with("曜日"));
    let now = DynamicDictionary::lookup_best_prefixes("いま");
    assert_eq!(now.len(), 2);
    assert_eq!(now[0].text.chars().count(), 5);
}

#[test]
fn weekday_names_and_readings() {
    assert_eq!(japanese_weekday(0), "日");
    assert_eq!(japanese_weekday(3), "水");
    assert_eq!(japanese_weekday(6), "土");
    let readings = dynamic_readings();
    assert_eq!(readings.len(), 13);
    assert_eq!(readings[0].iter().collect::<String>(), "いま");
}
