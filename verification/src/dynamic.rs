//! Candidates that depend on the clock: today's date, the time, and the
//! dates and years around them.

use vstd::prelude::*;
use chrono::{Datelike, Timelike};
use crate::candidate::{count_i32, models, Candidate, CandidateModel, MAX_RETURNED_CANDIDATES};
use crate::text::{chars_equal, chars_of, chars_start_with, copy_chars, copy_range, push_all};
use crate::wordmap::{at_most, extends};

verus! {

/// A calendar date, with its day of the week counted from Sunday = 0.
#[derive(Clone, Copy, Debug, PartialEq, Eq)]
pub struct CalendarDate {
    pub year: i32,
    pub month: u32,
    pub day: u32,
    pub weekday: u32,
}

/// A local date and time of day, to the minute.
#[derive(Clone, Copy, Debug, PartialEq, Eq)]
pub struct LocalDateTime {
    pub date: CalendarDate,
    pub hour: u32,
    pub minute: u32,
}

/// The first year that `chrono::NaiveDate` represents.
pub open spec fn min_year() -> int {
    -262143
}

/// The last year that `chrono::NaiveDate` represents.
pub open spec fn max_year() -> int {
    262142
}

/// The fields of a date lie in their documented ranges.
pub open spec fn date_in_range(d: CalendarDate) -> bool {
    &&& min_year() <= d.year <= max_year()
    &&& 1 <= d.month <= 12
    &&& 1 <= d.day <= 31
    &&& d.weekday < 7
}

/// The fields of a date and time lie in their documented ranges.
pub open spec fn datetime_in_range(t: LocalDateTime) -> bool {
    date_in_range(t.date) && t.hour < 24 && t.minute < 60
}

/// The clock now, as `chrono::Local::now()` gives it in local time.
/// Claims only that each field lies in the range that chrono documents for
/// it; which instant it is, is not stated.
#[verifier::external_body]
pub(crate) fn local_now() -> (t: LocalDateTime)
    ensures
        datetime_in_range(t),
{
    let now = chrono::Local::now().naive_local();
    let d = now.date();
    LocalDateTime {
        date: CalendarDate {
            year: d.year(),
            month: d.month(),
            day: d.day(),
            weekday: d.weekday().num_days_from_sunday(),
        },
        hour: now.hour(),
        minute: now.minute(),
    }
}

/// The date `days` days after the given year, month and day, as chrono's
/// proleptic Gregorian calendar computes it (`NaiveDate::from_ymd_opt` and
/// `checked_add_signed`); `None` when the date does not exist or the result
/// is out of chrono's range.
pub uninterp spec fn chrono_add_days(year: i32, month: u32, day: u32, days: i64) -> Option<CalendarDate>;

/// `chrono::NaiveDate::from_ymd_opt(..)` moved by `days` days with
/// `checked_add_signed(TimeDelta::try_days(days))`. Claims that the result
/// is `chrono_add_days` of the arguments and that a date it gives has its
/// fields in chrono's documented ranges.
#[verifier::external_body]
fn add_days(date: &CalendarDate, days: i64) -> (r: Option<CalendarDate>)
    ensures
        r == chrono_add_days(date.year, date.month, date.day, days),
        r matches Some(d) ==> date_in_range(d),
{
    let start = chrono::NaiveDate::from_ymd_opt(date.year, date.month, date.day);
    let delta = chrono::TimeDelta::try_days(days);
    match (start, delta) {
        (Some(s), Some(delta)) => match s.checked_add_signed(delta) {
            Some(d) => Some(CalendarDate {
                year: d.year(),
                month: d.month(),
                day: d.day(),
                weekday: d.weekday().num_days_from_sunday(),
            }),
            None => None,
        },
        _ => None,
    }
}

/// The character of a decimal digit.
pub open spec fn digit_char(d: int) -> char {
    ((48 + d) as u8) as char
}

/// The decimal digits of `n`.
pub open spec fn decimal(n: nat) -> Seq<char>
    decreases n,
{
    if n < 10 {
        seq![digit_char(n as int)]
    } else {
        decimal(n / 10).push(digit_char((n % 10) as int))
    }
}

/// `i` in decimal, with a minus sign when negative (`{}` formatting).
pub open spec fn signed_decimal(i: int) -> Seq<char> {
    if i < 0 {
        seq!['-'] + decimal((-i) as nat)
    } else {
        decimal(i as nat)
    }
}

/// `n` in decimal, with a leading zero below 10 (`{:02}` formatting).
pub open spec fn two_digits(n: nat) -> Seq<char> {
    if n < 10 {
        seq!['0'] + decimal(n)
    } else {
        decimal(n)
    }
}

/// The decimal digits of `n`.
pub fn decimal_chars(n: u64) -> (r: Vec<char>)
    ensures
        r@ == decimal(n as nat),
    decreases n,
{
    if n < 10 {
        let mut r: Vec<char> = Vec::new();
        r.push(((48 + n) as u8) as char);
        r
    } else {
        let mut r = decimal_chars(n / 10);
        r.push(((48 + n % 10) as u8) as char);
        r
    }
}

fn signed_decimal_chars(i: i64) -> (r: Vec<char>)
    requires
        i > i64::MIN,
    ensures
        r@ == signed_decimal(i as int),
{
    if i < 0 {
        let mut r: Vec<char> = Vec::new();
        r.push('-');
        let digits = decimal_chars((-i) as u64);
        push_all(&mut r, digits.as_slice());
        r
    } else {
        decimal_chars(i as u64)
    }
}

fn two_digit_chars(n: u32) -> (r: Vec<char>)
    ensures
        r@ == two_digits(n as nat),
{
    let digits = decimal_chars(n as u64);
    if n < 10 {
        let mut r: Vec<char> = Vec::new();
        r.push('0');
        push_all(&mut r, digits.as_slice());
        r
    } else {
        digits
    }
}

/// The kanji of a day of the week counted from Sunday = 0.
pub open spec fn weekday_name(i: int) -> Seq<char> {
    if i == 0 {
        "日"@
    } else if i == 1 {
        "月"@
    } else if i == 2 {
        "火"@
    } else if i == 3 {
        "水"@
    } else if i == 4 {
        "木"@
    } else if i == 5 {
        "金"@
    } else {
        "土"@
    }
}

/// The kanji of a day of the week counted from Sunday = 0.
pub fn japanese_weekday(index_from_sunday: usize) -> (r: &'static str)
    requires
        index_from_sunday < 7,
    ensures
        r@ == weekday_name(index_from_sunday as int),
{
    if index_from_sunday == 0 {
        "日"
    } else if index_from_sunday == 1 {
        "月"
    } else if index_from_sunday == 2 {
        "火"
    } else if index_from_sunday == 3 {
        "水"
    } else if index_from_sunday == 4 {
        "木"
    } else if index_from_sunday == 5 {
        "金"
    } else {
        "土"
    }
}

/// The time of day as `14:05` and as `14時5分`.
pub open spec fn time_texts(t: LocalDateTime) -> Seq<Seq<char>> {
    seq![
        two_digits(t.hour as nat) + ":"@ + two_digits(t.minute as nat),
        decimal(t.hour as nat) + "時"@ + decimal(t.minute as nat) + "分"@,
    ]
}

/// A date as `2026年5月20日`, `2026/5/20`, `5月20日`, its weekday
/// (`水曜日`) and in the Reiwa era (`令和8年5月20日`).
pub open spec fn date_texts(d: CalendarDate) -> Seq<Seq<char>> {
    let y = signed_decimal(d.year as int);
    let m = decimal(d.month as nat);
    let dd = decimal(d.day as nat);
    seq![
        y + "年"@ + m + "月"@ + dd + "日"@,
        y + "/"@ + m + "/"@ + dd,
        m + "月"@ + dd + "日"@,
        weekday_name(d.weekday as int) + "曜日"@,
        "令和"@ + signed_decimal(d.year - 2018) + "年"@ + m + "月"@ + dd + "日"@,
    ]
}

/// The date texts of the date `days` days away, none when chrono gives no
/// such date.
pub open spec fn shifted_date_texts(d: CalendarDate, days: i64) -> Seq<Seq<char>> {
    match chrono_add_days(d.year, d.month, d.day, days) {
        Some(s) => date_texts(s),
        None => Seq::empty(),
    }
}

/// The readings that have clock-dependent candidates.
pub open spec fn dynamic_reading_list() -> Seq<Seq<char>> {
    seq![
        "いま"@,
        "きょう"@,
        "ほんじつ"@,
        "あした"@,
        "あす"@,
        "みょうにち"@,
        "あさって"@,
        "きのう"@,
        "さくじつ"@,
        "おととい"@,
        "ことし"@,
        "らいねん"@,
        "きょねん"@,
    ]
}

/// The clock-dependent texts of a reading at time `t`.
pub open spec fn dynamic_texts(reading: Seq<char>, t: LocalDateTime) -> Seq<Seq<char>> {
    if reading == "いま"@ {
        time_texts(t)
    } else if reading == "きょう"@ || reading == "ほんじつ"@ {
        date_texts(t.date)
    } else if reading == "あした"@ || reading == "あす"@ || reading == "みょうにち"@ {
        shifted_date_texts(t.date, 1i64)
    } else if reading == "あさって"@ {
        shifted_date_texts(t.date, 2i64)
    } else if reading == "きのう"@ || reading == "さくじつ"@ {
        shifted_date_texts(t.date, -1i64)
    } else if reading == "おととい"@ {
        shifted_date_texts(t.date, -2i64)
    } else if reading == "ことし"@ {
        seq![signed_decimal(t.date.year as int)]
    } else if reading == "らいねん"@ {
        seq![signed_decimal(t.date.year + 1)]
    } else if reading == "きょねん"@ {
        seq![signed_decimal(t.date.year - 1)]
    } else {
        Seq::empty()
    }
}

/// The same time of day on the date `d`.
pub open spec fn on_date(t: LocalDateTime, d: CalendarDate) -> LocalDateTime {
    LocalDateTime { date: d, hour: t.hour, minute: t.minute }
}

/// What "today" gives on the date `days` days away from `t`'s date (the date
/// as chrono computes it), nothing where chrono has no such date.
pub open spec fn today_texts_days_away(t: LocalDateTime, days: int) -> Seq<Seq<char>> {
    match chrono_add_days(t.date.year, t.date.month, t.date.day, days as i64) {
        Some(d) => dynamic_texts("きょう"@, on_date(t, d)),
        None => Seq::empty(),
    }
}

proof fn lemma_dynamic_literals()
    ensures
        "いま"@.len() == 2,
        "いま"@[0] == 'い',
        "いま"@[1] == 'ま',
        "きょう"@.len() == 3,
        "きょう"@[0] == 'き',
        "きょう"@[1] == 'ょ',
        "ほんじつ"@.len() == 4,
        "ほんじつ"@[0] == 'ほ',
        "ほんじつ"@[1] == 'ん',
        "あした"@.len() == 3,
        "あした"@[0] == 'あ',
        "あした"@[1] == 'し',
        "あす"@.len() == 2,
        "あす"@[0] == 'あ',
        "あす"@[1] == 'す',
        "みょうにち"@.len() == 5,
        "みょうにち"@[0] == 'み',
        "みょうにち"@[1] == 'ょ',
        "あさって"@.len() == 4,
        "あさって"@[0] == 'あ',
        "あさって"@[1] == 'さ',
        "きのう"@.len() == 3,
        "きのう"@[0] == 'き',
        "きのう"@[1] == 'の',
        "さくじつ"@.len() == 4,
        "さくじつ"@[0] == 'さ',
        "さくじつ"@[1] == 'く',
        "おととい"@.len() == 4,
        "おととい"@[0] == 'お',
        "おととい"@[1] == 'と',
        "ことし"@.len() == 3,
        "ことし"@[0] == 'こ',
        "ことし"@[1] == 'と',
        "らいねん"@.len() == 4,
        "らいねん"@[0] == 'ら',
        "らいねん"@[1] == 'い',
        "きょねん"@.len() == 4,
        "きょねん"@[0] == 'き',
        "きょねん"@[1] == 'ょ',
{
    reveal_strlit("いま");
    reveal_strlit("きょう");
    reveal_strlit("ほんじつ");
    reveal_strlit("あした");
    reveal_strlit("あす");
    reveal_strlit("みょうにち");
    reveal_strlit("あさって");
    reveal_strlit("きのう");
    reveal_strlit("さくじつ");
    reveal_strlit("おととい");
    reveal_strlit("ことし");
    reveal_strlit("らいねん");
    reveal_strlit("きょねん");
}

/// "Yesterday" (`きのう`, `さくじつ`) gives what "today" gives on the day
/// before, "the day before yesterday" (`おととい`) what it gives two days
/// before, "tomorrow" (`あした`, `あす`, `みょうにち`) what it gives on the
/// next day and `あさって` what it gives two days on; `ほんじつ` gives what
/// `きょう` gives.
pub proof fn lemma_dynamic_relative_days(t: LocalDateTime)
    ensures
        dynamic_texts("ほんじつ"@, t) == dynamic_texts("きょう"@, t),
        dynamic_texts("きのう"@, t) == today_texts_days_away(t, -1),
        dynamic_texts("さくじつ"@, t) == today_texts_days_away(t, -1),
        dynamic_texts("おととい"@, t) == today_texts_days_away(t, -2),
        dynamic_texts("あした"@, t) == today_texts_days_away(t, 1),
        dynamic_texts("あす"@, t) == today_texts_days_away(t, 1),
        dynamic_texts("みょうにち"@, t) == today_texts_days_away(t, 1),
        dynamic_texts("あさって"@, t) == today_texts_days_away(t, 2),
{
    lemma_dynamic_literals();
}

/// "Today" gives the date written out in full (`2026年5月20日`), with
/// slashes (`2026/5/20`), as month and day (`5月20日`), as its day of the
/// week (`水曜日`) and in the Reiwa era, whose first year is 2019
/// (`令和8年5月20日`); "now" (`いま`) gives the time as `14:05` and as
/// `14時5分`; "this year", "next year" and "last year" give the year, the
/// one after and the one before in decimal; every other reading gives
/// nothing.
pub proof fn lemma_dynamic_texts_content(t: LocalDateTime, reading: Seq<char>)
    ensures
        dynamic_texts("きょう"@, t) == seq![
            signed_decimal(t.date.year as int) + "年"@ + decimal(t.date.month as nat) + "月"@
                + decimal(t.date.day as nat) + "日"@,
            signed_decimal(t.date.year as int) + "/"@ + decimal(t.date.month as nat) + "/"@
                + decimal(t.date.day as nat),
            decimal(t.date.month as nat) + "月"@ + decimal(t.date.day as nat) + "日"@,
            weekday_name(t.date.weekday as int) + "曜日"@,
            "令和"@ + signed_decimal(t.date.year as int - 2018) + "年"@ + decimal(
                t.date.month as nat,
            ) + "月"@ + decimal(t.date.day as nat) + "日"@,
        ],
        dynamic_texts("いま"@, t) == seq![
            two_digits(t.hour as nat) + ":"@ + two_digits(t.minute as nat),
            decimal(t.hour as nat) + "時"@ + decimal(t.minute as nat) + "分"@,
        ],
        dynamic_texts("ことし"@, t) == seq![signed_decimal(t.date.year as int)],
        dynamic_texts("らいねん"@, t) == seq![signed_decimal(t.date.year as int + 1)],
        dynamic_texts("きょねん"@, t) == seq![signed_decimal(t.date.year as int - 1)],
        !dynamic_reading_list().contains(reading) ==> dynamic_texts(reading, t) == Seq::<
            Seq<char>,
        >::empty(),
{
    lemma_dynamic_literals();
    if !dynamic_reading_list().contains(reading) {
        assert(reading != dynamic_reading_list()[0]);
        assert(reading != dynamic_reading_list()[1]);
        assert(reading != dynamic_reading_list()[2]);
        assert(reading != dynamic_reading_list()[3]);
        assert(reading != dynamic_reading_list()[4]);
        assert(reading != dynamic_reading_list()[5]);
        assert(reading != dynamic_reading_list()[6]);
        assert(reading != dynamic_reading_list()[7]);
        assert(reading != dynamic_reading_list()[8]);
        assert(reading != dynamic_reading_list()[9]);
        assert(reading != dynamic_reading_list()[10]);
        assert(reading != dynamic_reading_list()[11]);
        assert(reading != dynamic_reading_list()[12]);
    }
}

/// The candidates for the first `n` characters of `h` and shorter
/// prefixes, longest first.
pub open spec fn dynamic_prefix_hits(h: Seq<char>, t: LocalDateTime, n: int) -> Seq<CandidateModel>
    decreases n,
{
    if n <= 0 {
        Seq::empty()
    } else {
        dynamic_texts(h.take(n), t).map_values(|x: Seq<char>| (x, h.skip(n), n as i32))
            + dynamic_prefix_hits(h, t, n - 1)
    }
}

/// The best-prefix lookup at time `t`.
pub open spec fn spec_dynamic_best_prefixes(h: Seq<char>, t: LocalDateTime) -> Seq<CandidateModel> {
    at_most(dynamic_prefix_hits(h, t, h.len() as int), MAX_RETURNED_CANDIDATES as int)
}

/// The texts a reading gives at a time are few: at most five.
proof fn lemma_dynamic_texts_len(reading: Seq<char>, t: LocalDateTime)
    ensures
        dynamic_texts(reading, t).len() <= 5,
{
}

/// A lookup of the longest readings that start `h` gives first the texts of
/// `h` itself, in their order, each covering all of `h`.
pub proof fn lemma_best_prefixes_start_with_whole(h: Seq<char>, t: LocalDateTime)
    requires
        0 < h.len() <= i32::MAX,
    ensures
        spec_dynamic_best_prefixes(h, t).take(dynamic_texts(h, t).len() as int)
            == dynamic_texts(h, t).map_values(
            |x: Seq<char>| (x, Seq::<char>::empty(), h.len() as i32),
        ),
{
    let n = h.len() as int;
    lemma_dynamic_texts_len(h, t);
    let k = dynamic_texts(h, t).len() as int;
    assert(h.take(n) =~= h);
    assert(h.skip(n) =~= Seq::<char>::empty());
    let first = dynamic_texts(h.take(n), t).map_values(|x: Seq<char>| (x, h.skip(n), n as i32));
    let all = dynamic_prefix_hits(h, t, n);
    assert(all == first + dynamic_prefix_hits(h, t, n - 1));
    assert(all.take(k) =~= first);
    let r = spec_dynamic_best_prefixes(h, t);
    assert(r.take(k) =~= all.take(k));
    assert(first =~= dynamic_texts(h, t).map_values(
        |x: Seq<char>| (x, Seq::<char>::empty(), h.len() as i32),
    ));
}

/// The test "the reading extends `h`".
pub open spec fn reading_extends(h: Seq<char>) -> spec_fn(Seq<char>) -> bool {
    |r: Seq<char>| extends(r, h)
}

/// The candidates that a reading predicts for `h` at time `t`: each of its
/// texts, covering all of `h`.
pub open spec fn dynamic_hits(h: Seq<char>, t: LocalDateTime) -> spec_fn(Seq<char>) -> Seq<
    CandidateModel,
> {
    |r: Seq<char>| dynamic_texts(r, t).map_values(|x: Seq<char>| (x, Seq::<char>::empty(), count_i32(h)))
}

/// The prediction lookup at time `t`: the texts of the readings that extend
/// `h`, in list order, each covering all of `h`.
pub open spec fn spec_dynamic_predictions(h: Seq<char>, t: LocalDateTime) -> Seq<CandidateModel> {
    at_most(
        dynamic_reading_list().filter(reading_extends(h)).flat_map(dynamic_hits(h, t)),
        MAX_RETURNED_CANDIDATES as int,
    )
}

fn join2(a: Vec<char>, b: &str) -> (r: Vec<char>)
    ensures
        r@ == a@ + b@,
{
    let mut r = a;
    let tail = chars_of(b);
    push_all(&mut r, tail.as_slice());
    r
}

fn join_chars(a: Vec<char>, b: &Vec<char>) -> (r: Vec<char>)
    ensures
        r@ == a@ + b@,
{
    let mut r = a;
    push_all(&mut r, b.as_slice());
    r
}

/// The time of day texts (see `time_texts`).
fn time_candidates(t: &LocalDateTime) -> (r: Vec<Vec<char>>)
    ensures
        r@.map_values(|v: Vec<char>| v@) == time_texts(*t),
{
    let hh = two_digit_chars(t.hour);
    let mm = two_digit_chars(t.minute);
    let first = join_chars(join2(hh, ":"), &mm);
    let h = decimal_chars(t.hour as u64);
    let m = decimal_chars(t.minute as u64);
    let second = join2(join_chars(join2(h, "時"), &m), "分");
    let mut r: Vec<Vec<char>> = Vec::new();
    r.push(first);
    r.push(second);
    assert(r@.map_values(|v: Vec<char>| v@) =~= time_texts(*t));
    r
}

/// The date texts (see `date_texts`).
fn date_candidates(d: &CalendarDate) -> (r: Vec<Vec<char>>)
    requires
        date_in_range(*d),
    ensures
        r@.map_values(|v: Vec<char>| v@) == date_texts(*d),
{
    let y = signed_decimal_chars(d.year as i64);
    let m = decimal_chars(d.month as u64);
    let dd = decimal_chars(d.day as u64);
    let first = join2(join_chars(join2(join_chars(join2(copy_chars(&y), "年"), &m), "月"), &dd), "日");
    let second = join_chars(join2(join_chars(join2(copy_chars(&y), "/"), &m), "/"), &dd);
    let third = join2(join_chars(join2(copy_chars(&m), "月"), &dd), "日");
    let fourth = join2(chars_of(japanese_weekday(d.weekday as usize)), "曜日");
    let era = signed_decimal_chars((d.year as i64) - 2018);
    let fifth = join2(join_chars(join2(join_chars(join2(join_chars(chars_of("令和"), &era), "年"), &m), "月"), &dd), "日");
    let mut r: Vec<Vec<char>> = Vec::new();
    r.push(first);
    r.push(second);
    r.push(third);
    r.push(fourth);
    r.push(fifth);
    assert(r@.map_values(|v: Vec<char>| v@) =~= date_texts(*d));
    r
}

fn reading_is(reading: &Vec<char>, literal: &str) -> (r: bool)
    ensures
        r == (reading@ == literal@),
{
    let l = chars_of(literal);
    chars_equal(reading.as_slice(), l.as_slice())
}

fn shifted_candidates(d: &CalendarDate, days: i64) -> (r: Vec<Vec<char>>)
    ensures
        r@.map_values(|v: Vec<char>| v@) == shifted_date_texts(*d, days),
{
    match add_days(d, days) {
        Some(s) => date_candidates(&s),
        None => {
            let r: Vec<Vec<char>> = Vec::new();
            assert(r@.map_values(|v: Vec<char>| v@) =~= Seq::<Seq<char>>::empty());
            r
        },
    }
}

fn one_text(v: Vec<char>) -> (r: Vec<Vec<char>>)
    ensures
        r@.map_values(|x: Vec<char>| x@) == seq![v@],
{
    let ghost t = v@;
    let mut r: Vec<Vec<char>> = Vec::new();
    r.push(v);
    assert(r@.map_values(|x: Vec<char>| x@) =~= seq![t]);
    r
}

/// The clock-dependent texts of a reading (see `dynamic_texts`).
fn dynamic_texts_for_reading(reading: &Vec<char>, t: &LocalDateTime) -> (r: Vec<Vec<char>>)
    requires
        datetime_in_range(*t),
    ensures
        r@.map_values(|v: Vec<char>| v@) == dynamic_texts(reading@, *t),
{
    if reading_is(reading, "いま") {
        time_candidates(t)
    } else if reading_is(reading, "きょう") || reading_is(reading, "ほんじつ") {
        date_candidates(&t.date)
    } else if reading_is(reading, "あした") || reading_is(reading, "あす") || reading_is(
        reading,
        "みょうにち",
    ) {
        shifted_candidates(&t.date, 1)
    } else if reading_is(reading, "あさって") {
        shifted_candidates(&t.date, 2)
    } else if reading_is(reading, "きのう") || reading_is(reading, "さくじつ") {
        shifted_candidates(&t.date, -1)
    } else if reading_is(reading, "おととい") {
        shifted_candidates(&t.date, -2)
    } else if reading_is(reading, "ことし") {
        one_text(signed_decimal_chars(t.date.year as i64))
    } else if reading_is(reading, "らいねん") {
        one_text(signed_decimal_chars(t.date.year as i64 + 1))
    } else if reading_is(reading, "きょねん") {
        one_text(signed_decimal_chars(t.date.year as i64 - 1))
    } else {
        let r: Vec<Vec<char>> = Vec::new();
        assert(r@.map_values(|v: Vec<char>| v@) =~= Seq::<Seq<char>>::empty());
        r
    }
}

/// The readings that have clock-dependent candidates.
pub fn dynamic_readings() -> (r: Vec<Vec<char>>)
    ensures
        r@.map_values(|v: Vec<char>| v@) == dynamic_reading_list(),
{
    let mut r: Vec<Vec<char>> = Vec::new();
    r.push(chars_of("いま"));
    r.push(chars_of("きょう"));
    r.push(chars_of("ほんじつ"));
    r.push(chars_of("あした"));
    r.push(chars_of("あす"));
    r.push(chars_of("みょうにち"));
    r.push(chars_of("あさって"));
    r.push(chars_of("きのう"));
    r.push(chars_of("さくじつ"));
    r.push(chars_of("おととい"));
    r.push(chars_of("ことし"));
    r.push(chars_of("らいねん"));
    r.push(chars_of("きょねん"));
    assert(r@.map_values(|v: Vec<char>| v@) =~= dynamic_reading_list());
    r
}

impl CalendarDate {
    /// The date with the given year, month and day, if chrono has it.
    pub fn new(year: i32, month: u32, day: u32) -> (r: Option<CalendarDate>)
        ensures
            r == chrono_add_days(year, month, day, 0),
            r matches Some(d) ==> date_in_range(d),
    {
        add_days(&CalendarDate { year, month, day, weekday: 0 }, 0)
    }
}

/// Candidates computed from the clock.
pub struct DynamicDictionary;

impl DynamicDictionary {
    /// The best-prefix lookup at the current time.
    pub fn lookup_best_prefixes(hiragana: &str) -> (r: Vec<Candidate>)
        ensures
            exists|t: LocalDateTime|
                datetime_in_range(t) && models(r@) == spec_dynamic_best_prefixes(hiragana@, t),
    {
        let now = local_now();
        Self::lookup_best_prefixes_at(hiragana, now)
    }

    /// The prediction lookup at the current time.
    pub fn lookup_predictions(hiragana: &str) -> (r: Vec<Candidate>)
        ensures
            exists|t: LocalDateTime|
                datetime_in_range(t) && models(r@) == spec_dynamic_predictions(hiragana@, t),
    {
        let now = local_now();
        Self::lookup_predictions_at(hiragana, now)
    }

    /// The clock-dependent texts of the longest readings that start
    /// `hiragana`, at time `now`.
    pub fn lookup_best_prefixes_at(hiragana: &str, now: LocalDateTime) -> (r: Vec<Candidate>)
        requires
            datetime_in_range(now),
        ensures
            models(r@) == spec_dynamic_best_prefixes(hiragana@, now),
    {
        let h = chars_of(hiragana);
        let ghost whole = dynamic_prefix_hits(h@, now, h@.len() as int);
        let mut out: Vec<Candidate> = Vec::new();
        let mut cur = h.len();
        assert(models(out@) + dynamic_prefix_hits(h@, now, cur as int) =~= whole);
        while cur > 0
            invariant
                datetime_in_range(now),
                h@ == hiragana@,
                whole == dynamic_prefix_hits(h@, now, h@.len() as int),
                cur <= h@.len(),
                out@.len() < MAX_RETURNED_CANDIDATES,
                models(out@) + dynamic_prefix_hits(h@, now, cur as int) == whole,
            decreases cur,
        {
            let prefix = copy_range(h.as_slice(), 0, cur);
            let subtext = copy_range(h.as_slice(), cur, h.len());
            let texts = dynamic_texts_for_reading(&prefix, &now);
            let ghost hits = dynamic_texts(h@.take(cur as int), now).map_values(
                |x: Seq<char>| (x, h@.skip(cur as int), cur as i32),
            );
            assert(dynamic_prefix_hits(h@, now, cur as int) == hits + dynamic_prefix_hits(
                h@,
                now,
                cur - 1,
            ));
            let mut j: usize = 0;
            while j < texts.len()
                invariant
                    datetime_in_range(now),
                    h@ == hiragana@,
                    whole == dynamic_prefix_hits(h@, now, h@.len() as int),
                    0 < cur <= h@.len(),
                    texts@.map_values(|v: Vec<char>| v@) == dynamic_texts(h@.take(cur as int), now),
                    subtext@ == h@.skip(cur as int),
                    hits == dynamic_texts(h@.take(cur as int), now).map_values(
                        |x: Seq<char>| (x, h@.skip(cur as int), cur as i32),
                    ),
                    j <= texts@.len(),
                    out@.len() < MAX_RETURNED_CANDIDATES,
                    models(out@) + hits.skip(j as int) + dynamic_prefix_hits(h@, now, cur - 1)
                        == whole,
                decreases texts@.len() - j,
            {
                let ghost before = models(out@);
                let c = Candidate::from_chars(texts[j].as_slice(), subtext.as_slice(), cur as i32);
                assert(texts@.map_values(|v: Vec<char>| v@)[j as int] == texts@[j as int]@);
                assert(hits[j as int] == c@);
                out.push(c);
                assert(models(out@) =~= before.push(c@));
                assert(hits.skip(j as int) =~= seq![c@] + hits.skip(j + 1));
                assert(models(out@) + hits.skip(j + 1) =~= before + hits.skip(j as int));
                j += 1;
                if out.len() >= MAX_RETURNED_CANDIDATES {
                    assert(whole.take(MAX_RETURNED_CANDIDATES as int) =~= models(out@));
                    assert(at_most(whole, MAX_RETURNED_CANDIDATES as int) == whole.take(
                        MAX_RETURNED_CANDIDATES as int,
                    )) by {
                        if whole.len() == MAX_RETURNED_CANDIDATES {
                            assert(whole.take(MAX_RETURNED_CANDIDATES as int) =~= whole);
                        }
                    }
                    return out;
                }
            }
            assert(hits.skip(j as int) =~= Seq::<CandidateModel>::empty());
            assert(models(out@) + dynamic_prefix_hits(h@, now, cur - 1) =~= whole);
            cur -= 1;
        }
        assert(models(out@) =~= whole);
        out
    }

    /// The clock-dependent texts of the readings that extend `hiragana`,
    /// at time `now`.
    pub fn lookup_predictions_at(hiragana: &str, now: LocalDateTime) -> (r: Vec<Candidate>)
        requires
            datetime_in_range(now),
        ensures
            models(r@) == spec_dynamic_predictions(hiragana@, now),
    {
        let h = chars_of(hiragana);
        let readings = dynamic_readings();
        let ghost list = dynamic_reading_list();
        let ghost f = reading_extends(h@);
        let ghost g = dynamic_hits(h@, now);
        let ghost whole = list.filter(f).flat_map(g);
        let count = h.len() as i32;
        let mut out: Vec<Candidate> = Vec::new();
        let mut i: usize = 0;
        assert(list.take(0).filter(f) =~= Seq::<Seq<char>>::empty()) by {
            reveal(Seq::filter);
        }
        assert(models(out@) =~= list.take(0).filter(f).flat_map(g)) by {
            reveal_with_fuel(Seq::flat_map, 1);
        }
        while i < readings.len()
            invariant
                datetime_in_range(now),
                h@ == hiragana@,
                readings@.map_values(|v: Vec<char>| v@) == list,
                list == dynamic_reading_list(),
                f == reading_extends(h@),
                g == dynamic_hits(h@, now),
                whole == list.filter(f).flat_map(g),
                count == count_i32(h@),
                i <= readings@.len(),
                out@.len() < MAX_RETURNED_CANDIDATES,
                models(out@) == list.take(i as int).filter(f).flat_map(g),
            decreases readings@.len() - i,
        {
            let r = &readings[i];
            let ghost e = list[i as int];
            assert(readings@.map_values(|v: Vec<char>| v@)[i as int] == r@);
            assert(e == r@);
            let hit = chars_start_with(r.as_slice(), h.as_slice()) && !chars_equal(
                r.as_slice(),
                h.as_slice(),
            );
            assert(hit == f(e));
            assert(list.take(i + 1) == list.take(i as int).push(e));
            proof {
                list.take(i as int).lemma_filter_push(e, f);
            }
            if hit {
                let texts = dynamic_texts_for_reading(r, &now);
                let ghost base = models(out@);
                let ghost hits = g(e);
                proof {
                    list.take(i as int).filter(f).lemma_flat_map_push(g, e);
                    crate::wordmap::lemma_flat_filter_prefix(list, f, g, i + 1);
                }
                let mut j: usize = 0;
                while j < texts.len()
                    invariant
                        texts@.map_values(|v: Vec<char>| v@) == dynamic_texts(e, now),
                        hits == g(e),
                        g == dynamic_hits(h@, now),
                        count == count_i32(h@),
                        j <= texts@.len(),
                        out@.len() < MAX_RETURNED_CANDIDATES,
                        models(out@) == base + hits.take(j as int),
                        whole == list.filter(f).flat_map(g),
                        (base + hits).is_prefix_of(whole),
                        h@ == hiragana@,
                        list == dynamic_reading_list(),
                        f == reading_extends(h@),
                    decreases texts@.len() - j,
                {
                    let ghost before = models(out@);
                    let empty: Vec<char> = Vec::new();
                    let cand = Candidate::from_chars(texts[j].as_slice(), empty.as_slice(), count);
                    assert(texts@.map_values(|v: Vec<char>| v@)[j as int] == texts@[j as int]@);
                    assert(hits[j as int] == cand@);
                    out.push(cand);
                    assert(models(out@) =~= before.push(cand@));
                    assert(hits.take(j + 1) =~= hits.take(j as int).push(hits[j as int]));
                    assert(models(out@) =~= base + hits.take(j + 1));
                    j += 1;
                    if out.len() >= MAX_RETURNED_CANDIDATES {
                        assert(whole.take(MAX_RETURNED_CANDIDATES as int) =~= models(out@));
                        assert(at_most(whole, MAX_RETURNED_CANDIDATES as int) == whole.take(
                            MAX_RETURNED_CANDIDATES as int,
                        )) by {
                            if whole.len() == MAX_RETURNED_CANDIDATES {
                                assert(whole.take(MAX_RETURNED_CANDIDATES as int) =~= whole);
                            }
                        }
                        return out;
                    }
                }
                assert(hits.take(j as int) == hits);
            } else {
                assert(list.take(i + 1).filter(f) == list.take(i as int).filter(f));
            }
            i += 1;
        }
        assert(list.take(i as int) == list);
        out
    }
}

} // verus!
