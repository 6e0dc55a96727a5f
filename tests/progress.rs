use chrono::{Datelike, NaiveDate};
use life_progress::{
    get_life_time, get_progress_info, init, CivilDate, CountryInfo, Gender, LifeError,
    LifespanDataset, ProgressInfo,
};

fn date(y: i32, m: u32, d: u32) -> CivilDate {
    CivilDate { days_from_ce: NaiveDate::from_ymd_opt(y, m, d).unwrap().num_days_from_ce() }
}

fn info(all: u32, female: u32, male: u32) -> CountryInfo {
    CountryInfo { all, female, male }
}

fn dataset() -> LifespanDataset {
    let mut d = LifespanDataset::new();
    d.insert("Common".to_string(), info(7300, 7550, 7050));
    d.insert("People's Republic of China".to_string(), info(7810, 8100, 7500));
    d.insert("Japan".to_string(), info(8400, 8700, 8150));
    d
}

#[test]
fn test_init() {
    let progress = init(
        "19941210",
        date(2024, 12, 10),
        Some(Gender::Male),
        Some("People's Republic of China"),
        &dataset(),
    )
    .unwrap();
    assert_eq!(progress.spent, 10958);
    assert_eq!(progress.progress as i128 + progress.rest_progress, 10_000);
}

#[test]
fn thirty_years_against_seventy_five() {
    // 1994-12-10 to 2024-12-10 is 30 years with 8 leap days.
    let r = init("1994-12-10", date(2024, 12, 10), Some(Gender::Male), Some("People's Republic of China"), &dataset())
        .unwrap();
    assert_eq!(r.spent, 10958);
    // 10958 / 27375 = 0.400292.. which rounds to 0.4003.
    assert_eq!(r.progress, 4003);
    assert_eq!(r.rest_progress, 5997);
    assert_eq!(r.rest, 27375 - 10958);
}

#[test]
fn generate_rounds_the_fraction_to_four_decimals() {
    let r = ProgressInfo::generate(10957, Some(Gender::Male), info(7300, 7550, 7500));
    // 10957 / 27375 = 0.400255.. which rounds to 0.4003.
    assert_eq!(r, ProgressInfo { spent: 10957, progress: 4003, rest: 16418, rest_progress: 5997 });
    // 365 / 36500 = 0.01 exactly.
    let r = ProgressInfo::generate(365, None, info(10000, 1, 1));
    assert_eq!(r.progress, 100);
    assert_eq!(r.rest, 36135);
    // 1 / 27375 = 0.0000365.. which rounds to 0.0000.
    assert_eq!(ProgressInfo::generate(1, None, info(7500, 1, 1)).progress, 0);
    // 2 / 27375 = 0.0000730.. which rounds to 0.0001.
    assert_eq!(ProgressInfo::generate(2, None, info(7500, 1, 1)).progress, 1);
}

#[test]
fn gender_selects_the_figure() {
    let rec = info(8000, 10000, 5000);
    assert_eq!(ProgressInfo::generate(3650, None, rec).progress, 1250);
    assert_eq!(ProgressInfo::generate(3650, Some(Gender::Female), rec).progress, 1000);
    assert_eq!(ProgressInfo::generate(3650, Some(Gender::Male), rec).progress, 2000);
}

#[test]
fn fractional_years_count_in_days() {
    // 75.47 years are 27546.55 days.
    let r = ProgressInfo::generate(0, None, info(7547, 1, 1));
    assert_eq!(r.rest, 27546);
    let r = ProgressInfo::generate(27546, None, info(7547, 1, 1));
    assert_eq!(r.rest, 0);
    assert_eq!(r.progress, 10_000);
}

#[test]
fn progress_and_rest_progress_make_a_hundred() {
    for spent in [0u64, 1, 17, 365, 10957, 27375, 40000, 100000, u64::MAX] {
        for rec in [info(7500, 8000, 7000), info(1, 1, 1), info(12345, 678, 9999)] {
            for g in [None, Some(Gender::Male), Some(Gender::Female)] {
                let r = ProgressInfo::generate(spent, g, rec);
                assert_eq!(r.progress as i128 + r.rest_progress, 10_000);
            }
        }
    }
}

#[test]
fn generate_is_repeatable() {
    let a = ProgressInfo::generate(12345, Some(Gender::Female), info(7300, 7550, 7050));
    let b = ProgressInfo::generate(12345, Some(Gender::Female), info(7300, 7550, 7050));
    assert_eq!(a, b);
}

#[test]
fn outliving_the_expectancy_leaves_no_rest() {
    let r = ProgressInfo::generate(30000, None, info(7500, 1, 1));
    assert_eq!(r.rest, 0);
    assert_eq!(r.progress, 10959);
    assert_eq!(r.rest_progress, -959);
}

#[test]
fn born_today() {
    let today = date(2024, 5, 1);
    let r = get_progress_info(today, today, Some(Gender::Female), None, &dataset()).unwrap();
    assert_eq!(r.spent, 0);
    assert_eq!(r.progress, 0);
    assert_eq!(r.rest_progress, 10_000);
    assert_eq!(r.rest, 27557);
}

#[test]
fn future_birthday_is_an_error() {
    let r = get_progress_info(date(2024, 5, 2), date(2024, 5, 1), None, None, &dataset());
    assert_eq!(r, Err(LifeError::FutureBirthday));
    let r = init("2030-01-01", date(2024, 5, 1), None, None, &dataset());
    assert_eq!(r, Err(LifeError::FutureBirthday));
}

#[test]
fn init_reports_bad_birthday_text() {
    let r = init("1994-2-10", date(2024, 5, 1), None, None, &dataset());
    assert_eq!(r, Err(LifeError::InvalidFormat));
}

#[test]
fn unknown_and_missing_nation_use_common() {
    let ds = dataset();
    let common = get_life_time(None, &ds).unwrap();
    assert_eq!(common, info(7300, 7550, 7050));
    assert_eq!(get_life_time(Some("any-nation-not-in-dataset"), &ds).unwrap(), common);
    assert_eq!(get_life_time(Some("Japan"), &ds).unwrap(), info(8400, 8700, 8150));
    // Lookup is exact: case matters.
    assert_eq!(get_life_time(Some("japan"), &ds).unwrap(), common);
}

#[test]
fn missing_common_is_a_configuration_error() {
    let mut ds = LifespanDataset::new();
    ds.insert("Japan".to_string(), info(8400, 8700, 8150));
    assert_eq!(get_life_time(None, &ds), Err(LifeError::Configuration));
    assert_eq!(get_life_time(Some("Japan"), &ds), Err(LifeError::Configuration));
    assert_eq!(get_life_time(Some("Nowhere"), &ds), Err(LifeError::Configuration));
    let r = get_progress_info(date(2000, 1, 1), date(2024, 1, 1), None, Some("Japan"), &ds);
    assert_eq!(r, Err(LifeError::Configuration));
}

#[test]
fn nation_record_drives_the_result() {
    let ds = dataset();
    let born = date(2000, 1, 1);
    let today = date(2020, 1, 1);
    let japan = get_progress_info(born, today, Some(Gender::Female), Some("Japan"), &ds).unwrap();
    assert_eq!(japan.spent, 7305);
    // 7305 / 31755 = 0.23004.. which rounds to 0.2300.
    assert_eq!(japan.progress, 2300);
    assert_eq!(japan.rest, 24450);
}

#[test]
fn error_messages() {
    assert_eq!(LifeError::InvalidFormat.message(), "birthday must be '%Y-%m-%d', '%Y%m%d' or millis timestamp");
    assert_eq!(LifeError::FutureBirthday.message(), "birthday lies in the future");
    assert_eq!(LifeError::Configuration.message(), "lifespan dataset has no 'Common' entry");
    assert_eq!(LifeError::DataUnavailable.message(), "lifespan dataset is unavailable");
}

#[test]
fn largest_day_count_does_not_overflow() {
    let r = ProgressInfo::generate(u64::MAX, None, info(1, 1, 1));
    // u64::MAX * 10^6 / 365, rounded half up.
    assert_eq!(r.progress, (2 * (u64::MAX as u128) * 1_000_000 + 365) / 730);
    assert_eq!(r.rest, 0);
    assert_eq!(r.progress as i128 + r.rest_progress, 10_000);
}
