use chrono::{DateTime, Datelike, NaiveDate};
use life_progress::{get_birthday_time, LifeError};

fn day_of(y: i32, m: u32, d: u32) -> i32 {
    NaiveDate::from_ymd_opt(y, m, d).unwrap().num_days_from_ce()
}

#[test]
fn test_get_birthday_time() {
    // %Y-%m-%d
    let test_time = "2024-01-17";
    let result = get_birthday_time("2024-01-17").unwrap();
    assert_eq!(
        result.days_from_ce,
        NaiveDate::parse_from_str(test_time, "%Y-%m-%d").unwrap().num_days_from_ce()
    );

    // %Y%m%d
    let test_time = "20240117";
    let result = get_birthday_time(test_time).unwrap();
    assert_eq!(
        result.days_from_ce,
        NaiveDate::parse_from_str(test_time, "%Y%m%d").unwrap().num_days_from_ce()
    );

    // timestamp
    let test_time: &str = "1705481218207";
    let result = get_birthday_time(test_time).unwrap();
    assert_eq!(
        result.days_from_ce,
        DateTime::from_timestamp_millis(test_time.parse::<i64>().unwrap())
            .unwrap()
            .date_naive()
            .num_days_from_ce()
    );
}

#[test]
fn three_shapes_name_the_same_day() {
    let compact = get_birthday_time("20240117").unwrap();
    let dashed = get_birthday_time("2024-01-17").unwrap();
    let millis = get_birthday_time("1705449600000").unwrap();
    assert_eq!(compact, dashed);
    assert_eq!(dashed, millis);
    assert_eq!(dashed.days_from_ce, 738902);
    assert_eq!(dashed.days_from_ce, day_of(2024, 1, 17));
}

#[test]
fn last_millisecond_of_a_day_stays_on_it() {
    let d = get_birthday_time("1705535999999").unwrap();
    assert_eq!(d.days_from_ce, day_of(2024, 1, 17));
    let next = get_birthday_time("1705536000000").unwrap();
    assert_eq!(next.days_from_ce, day_of(2024, 1, 18));
}

#[test]
fn epoch_and_signed_timestamps() {
    assert_eq!(get_birthday_time("0").unwrap().days_from_ce, 719163);
    assert_eq!(get_birthday_time("+1705449600000").unwrap().days_from_ce, day_of(2024, 1, 17));
    // A leading minus sends the text to the YYYY-MM-DD shape, where it fails.
    assert_eq!(get_birthday_time("-86400000"), Err(LifeError::InvalidFormat));
}

#[test]
fn day_numbers_match_chrono() {
    for (y, m, d) in [(1, 1, 1), (1970, 1, 1), (2000, 2, 29), (1994, 12, 10), (9999, 12, 31), (0, 1, 1)] {
        let text = format!("{:04}-{:02}-{:02}", y, m, d);
        assert_eq!(get_birthday_time(&text).unwrap().days_from_ce, day_of(y, m, d), "{}", text);
        let text = format!("{:04}{:02}{:02}", y, m, d);
        assert_eq!(get_birthday_time(&text).unwrap().days_from_ce, day_of(y, m, d), "{}", text);
    }
}

#[test]
fn invalid_birthdays_are_rejected() {
    for text in [
        "",
        "abc",
        "2024-1-17",
        "2024-01-7",
        "2024-02-30",
        "2023-02-29",
        "2024-13-01",
        "2024-00-10",
        "2024-01-17 ",
        " 2024-01-17",
        "20241301",
        "2024011a",
        "2024/01/17",
        "+",
        "12.5",
        "99999999999999999999",
        "9223372036854775808",
    ] {
        assert_eq!(get_birthday_time(text), Err(LifeError::InvalidFormat), "{:?}", text);
    }
}

#[test]
fn leap_day_is_accepted_in_leap_years() {
    assert!(get_birthday_time("2000-02-29").is_ok());
    assert!(get_birthday_time("19000229").is_err());
    assert!(get_birthday_time("20240229").is_ok());
}

#[test]
fn timestamps_outside_chrono_range_are_rejected() {
    assert_eq!(get_birthday_time("9223372036854775807"), Err(LifeError::InvalidFormat));
    // The largest timestamp in range: the last millisecond of 262142-12-31.
    let max_day_ms: i64 = (95_745_399 - 719_163 + 1) * 86_400_000 - 1;
    let text = max_day_ms.to_string();
    assert_eq!(get_birthday_time(&text).unwrap().days_from_ce, 95_745_399);
    let text = (max_day_ms + 1).to_string();
    assert_eq!(get_birthday_time(&text), Err(LifeError::InvalidFormat));
}
