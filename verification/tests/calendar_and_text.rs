use shift_planner::calendar::{
    digit_value, leap_year, month_start_end, weekday_index_for_date, Date,
};
use shift_planner::locale::{set_date_format, set_lang, I18nState};
use shift_planner::order::{may_precede, sort_positions, SortKey};
use shift_planner::text::{str_eq, str_le};
use shift_planner::weekdays::{
    eq_ignore_ascii_case, weekday_index_from_lower, weekday_index_from_name, weekday_rank_any,
    weekday_rank_from_lower,
};

fn day(y: i32, m: u32, d: u32) -> Date {
    Date { year: y, month: m, day: d }
}

fn key(a: &str, b: &str) -> SortKey {
    SortKey { first: a.to_string(), second: b.to_string() }
}

#[test]
fn dates_exist_or_not() {
    assert!(day(2025, 1, 6).is_valid());
    assert!(day(2024, 2, 29).is_valid());
    assert!(!day(2025, 2, 29).is_valid());
    assert!(day(2000, 2, 29).is_valid());
    assert!(!day(1900, 2, 29).is_valid());
    assert!(!day(2025, 4, 31).is_valid());
    assert!(!day(2025, 13, 1).is_valid());
    assert!(!day(2025, 0, 1).is_valid());
    assert!(!day(2025, 1, 0).is_valid());
    assert!(!day(0, 1, 1).is_valid());
    assert!(!day(10000, 1, 1).is_valid());
    assert!(day(1, 1, 1).is_valid());
    assert!(day(9999, 12, 31).is_valid());
}

#[test]
fn dates_are_ordered() {
    assert!(day(2025, 1, 6).is_not_after(&day(2025, 1, 6)));
    assert!(day(2025, 1, 6).is_not_after(&day(2025, 1, 7)));
    assert!(day(2024, 12, 31).is_not_after(&day(2025, 1, 1)));
    assert!(!day(2025, 2, 1).is_not_after(&day(2025, 1, 31)));
}

#[test]
fn weekday_of_a_date() {
    assert_eq!(weekday_index_for_date(2025, 1, 6), 1);
    assert_eq!(weekday_index_for_date(2025, 1, 12), 7);
    assert_eq!(weekday_index_for_date(2024, 2, 29), 4);
    assert_eq!(day(2025, 1, 8).weekday_index(), Some(3));
    assert_eq!(day(2025, 2, 30).weekday_index(), None);
}

#[test]
fn days_are_numbered_from_the_year_one() {
    assert_eq!(day(1, 1, 1).day_index(), Some(1));
    assert_eq!(day(2025, 1, 6).day_index(), Some(739257));
    assert_eq!(day(9999, 12, 31).day_index(), Some(3652059));
    assert_eq!(day(2025, 2, 30).day_index(), None);
    assert_eq!(Date::from_day_index(739257), Some(day(2025, 1, 6)));
    assert_eq!(Date::from_day_index(739258), Some(day(2025, 1, 7)));
    assert_eq!(Date::from_day_index(1), Some(day(1, 1, 1)));
    assert_eq!(Date::from_day_index(0), None);
    assert_eq!(Date::from_day_index(3652060), None);
    assert_eq!(Date::from_day_index(i32::MAX), None);
    assert_eq!(Date::from_day_index(i32::MIN), None);
}

#[test]
fn dates_are_written_with_leading_zeros() {
    assert_eq!(day(2025, 1, 6).to_text(), Some("2025-01-06".to_string()));
    assert_eq!(day(987, 12, 31).to_text(), Some("0987-12-31".to_string()));
    assert_eq!(day(1, 1, 1).to_text(), Some("0001-01-01".to_string()));
    assert_eq!(day(2025, 2, 30).to_text(), None);
}

#[test]
fn dates_are_read_back() {
    assert_eq!(Date::from_text("2025-01-06"), Some(day(2025, 1, 6)));
    assert_eq!(Date::from_text("0001-01-01"), Some(day(1, 1, 1)));
    assert_eq!(Date::from_text("2025-02-30"), None);
    assert_eq!(Date::from_text("2025-1-06"), None);
    assert_eq!(Date::from_text("2025/01/06"), None);
    assert_eq!(Date::from_text("2025-01-06 "), None);
    assert_eq!(Date::from_text("20a5-01-06"), None);
    assert_eq!(Date::from_text(""), None);
    assert_eq!(Date::from_text("２０２５-01-06"), None);
    assert_eq!(digit_value('7'), Some(7));
    assert_eq!(digit_value('x'), None);
}

#[test]
fn months_have_their_lengths() {
    assert_eq!(month_start_end(2025, 1), (2025, 1, 31));
    assert_eq!(month_start_end(2025, 2), (2025, 2, 28));
    assert_eq!(month_start_end(2024, 2), (2024, 2, 29));
    assert_eq!(month_start_end(2025, 4), (2025, 4, 30));
    assert_eq!(month_start_end(2025, 12), (2025, 12, 31));
}

#[test]
fn day_stamps_differ_by_day() {
    assert_eq!(day(2025, 1, 6).day_stamp(), 8697308839942);
    assert!(day(2025, 1, 6).day_stamp() != day(2025, 1, 7).day_stamp());
}

#[test]
fn texts_compare_by_their_bytes() {
    assert!(str_le("", ""));
    assert!(str_le("", "a"));
    assert!(!str_le("a", ""));
    assert!(str_le("2025-01-06", "2025-01-06"));
    assert!(str_le("2025-01-06", "2025-01-07"));
    assert!(!str_le("2025-01-07", "2025-01-06"));
    assert!(str_le("2025-01-06", "2025-01-06 09:00:00"));
    assert!(!str_le("2025-01-06 09:00:00", "2025-01-06"));
    assert!(str_le("Z", "a"));
    assert!(str_le("z", "é"));
    assert!(str_eq("abc", "abc"));
    assert!(!str_eq("abc", "abd"));
    assert!(!str_eq("abc", "ab"));
}

#[test]
fn weekday_names_in_four_languages() {
    assert_eq!(weekday_index_from_name("Monday"), 1);
    assert_eq!(weekday_index_from_name("MARTES"), 2);
    assert_eq!(weekday_index_from_name("Miércoles"), 3);
    assert_eq!(weekday_index_from_name("miercoles"), 3);
    assert_eq!(weekday_index_from_name("Jeudi"), 4);
    assert_eq!(weekday_index_from_name("Freitag"), 5);
    assert_eq!(weekday_index_from_name("SÁBADO"), 6);
    assert_eq!(weekday_index_from_name("Sunday"), 7);
    assert_eq!(weekday_index_from_name("no such day"), 7);
    assert_eq!(weekday_index_from_lower("monday"), 1);
    // The names are known in lower case only.
    assert_eq!(weekday_index_from_lower("Monday"), 7);
}

#[test]
fn rows_are_sorted_and_equal_keys_keep_their_order() {
    let keys = vec![key("b", "2"), key("a", "9"), key("b", "1"), key("a", "9"), key("", "")];
    assert_eq!(sort_positions(&keys), vec![4, 1, 3, 2, 0]);
    assert_eq!(sort_positions(&Vec::new()), Vec::<usize>::new());
    assert!(may_precede(&key("a", "9"), &key("b", "1")));
    assert!(!may_precede(&key("b", "1"), &key("a", "9")));
    assert!(may_precede(&key("a", "1"), &key("a", "1")));
}

#[test]
fn weekdays_reach_beyond_four_digit_years() {
    assert_eq!(weekday_index_for_date(1, 1, 1), 1);
    assert_eq!(weekday_index_for_date(0, 2, 29), 2);
    assert_eq!(weekday_index_for_date(-4, 2, 29), 4);
    assert_eq!(weekday_index_for_date(12345, 6, 7), 4);
    assert_eq!(weekday_index_for_date(262142, 12, 31), 1);
    assert_eq!(weekday_index_for_date(-262143, 1, 1), 4);
}

#[test]
fn leap_years_follow_the_rule_of_four_hundred() {
    assert!(leap_year(2024));
    assert!(!leap_year(2025));
    assert!(!leap_year(1900));
    assert!(leap_year(2000));
    assert!(leap_year(0));
    assert!(leap_year(-4));
    assert!(!leap_year(-1));
    assert!(!leap_year(-100));
    assert!(leap_year(-400));
    assert_eq!(month_start_end(-4, 2), (-4, 2, 29));
}

#[test]
fn weekdays_are_ranked_from_the_start_of_the_week() {
    assert_eq!(weekday_rank_any("Monday", "monday"), 0);
    assert_eq!(weekday_rank_any("SUNDAY", "monday"), 6);
    assert_eq!(weekday_rank_any("Sunday", "Sunday"), 0);
    assert_eq!(weekday_rank_any("lunes", "SUNDAY"), 1);
    assert_eq!(weekday_rank_any("Samedi", "sunday"), 6);
    assert_eq!(weekday_rank_any("Miércoles", "monday"), 2);
    assert_eq!(weekday_rank_any("Montag", "monday"), 7);
    assert_eq!(weekday_rank_any("", "sunday"), 7);
    assert_eq!(weekday_rank_from_lower("domingo", false), 6);
    assert!(eq_ignore_ascii_case("SunDay", "sunday"));
    assert!(!eq_ignore_ascii_case("sundae", "sunday"));
    assert!(!eq_ignore_ascii_case("sunday ", "sunday"));
    assert!(eq_ignore_ascii_case("", ""));
    assert!(!eq_ignore_ascii_case("é", "É"));
}

#[test]
fn only_known_languages_can_be_chosen() {
    let mut state = I18nState { lang: "system".to_string(), date_format: "YYYY-MM-DD".to_string() };
    set_lang(&mut state, "de");
    assert_eq!(state.lang, "de");
    set_lang(&mut state, "tlh");
    assert_eq!(state.lang, "en");
    set_lang(&mut state, "system");
    assert_eq!(state.lang, "system");
    set_date_format(&mut state, "DD/MM/YYYY");
    assert_eq!(state.date_format, "DD/MM/YYYY");
    assert_eq!(state.lang, "system");
}
