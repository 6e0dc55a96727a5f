//! How much of an expected lifespan has passed, and how much is left.
use vstd::prelude::*;
use vstd::string::StringSliceAdditionalSpecFns;
use crate::birthday::{birthday_day, get_birthday_time};
use crate::calendar::CivilDate;
use crate::error::LifeError;
use crate::lifespan::{common_key, get_life_time, lemma_lookup_valid, opt_str_view, records_valid, resolve, CountryInfo, Gender, LifespanDataset};

verus! {

/// Days in the fixed-length year that lifespans are counted in.
pub const DAYS_PER_YEAR: u64 = 365;

/// Life progress. `progress` and `rest_progress` are in hundredths of a percent
/// (`4003` is 40.03%), and always add up to one hundred percent.
#[derive(Clone, Copy, Debug, PartialEq, Eq, Structural)]
pub struct ProgressInfo {
    /// Days from the birthday to today.
    pub spent: u64,
    /// Share of the expected lifespan that has passed, rounded to four decimals of the fraction.
    pub progress: u128,
    /// Whole days left of the expected lifespan; zero once it is outlived.
    pub rest: u64,
    /// One hundred percent minus `progress`; negative once the lifespan is outlived.
    pub rest_progress: i128,
}

/// `spent / (lifetime / 100 * 365)`, rounded half up to four decimals, as a count of ten
/// thousandths (`lifetime` is in hundredths of a year).
pub open spec fn progress_of(spent: int, lifetime: int) -> int {
    (2 * spent * 1_000_000 + lifetime * 365) / (2 * lifetime * 365)
}

/// Whole days from `spent` to the end of the expected lifespan, zero when none are left.
pub open spec fn rest_of(spent: int, lifetime: int) -> int {
    if lifetime * 365 >= spent * 100 {
        (lifetime * 365 - spent * 100) / 100
    } else {
        0
    }
}

/// The progress of someone `spent` days old, of the given gender, under the given record.
pub open spec fn progress_info(spent: int, gender: Option<Gender>, info: CountryInfo) -> ProgressInfo {
    let life = info.lifetime_for(gender) as int;
    ProgressInfo {
        spent: spent as u64,
        progress: progress_of(spent, life) as u128,
        rest: rest_of(spent, life) as u64,
        rest_progress: (10_000 - progress_of(spent, life)) as i128,
    }
}

/// What `get_progress_info` gives: the progress at `today` of someone born on `birthday`.
pub open spec fn progress_result(
    birthday: CivilDate,
    today: CivilDate,
    gender: Option<Gender>,
    nation: Option<Seq<char>>,
    entries: Seq<(Seq<char>, CountryInfo)>,
) -> Result<ProgressInfo, LifeError> {
    let elapsed = today.days_from_ce - birthday.days_from_ce;
    if elapsed < 0 {
        Err(LifeError::FutureBirthday)
    } else {
        match resolve(nation, entries) {
            Some(info) => Ok(progress_info(elapsed, gender, info)),
            None => Err(LifeError::Configuration),
        }
    }
}

proof fn lemma_progress_bounds(spent: int, life: int)
    requires
        0 <= spent,
        0 < life,
    ensures
        0 <= progress_of(spent, life) <= spent * 1_000_000 / 365 + 1,
        spent <= u64::MAX ==> progress_of(spent, life) <= 100_000_000_000_000_000_000_000_000,
        0 <= rest_of(spent, life) <= life * 365,
{
    let num = 2 * spent * 1_000_000 + life * 365;
    let den = 2 * life * 365;
    assert(num >= 0 && den > 0) by (nonlinear_arith)
        requires 0 <= spent, 0 < life, num == 2 * spent * 1_000_000 + life * 365, den == 2 * life * 365;
    assert(num / den <= spent * 1_000_000 / 365 + 1) by (nonlinear_arith)
        requires 0 <= spent, 0 < life, num == 2 * spent * 1_000_000 + life * 365, den == 2 * life * 365;
    assert(0 <= num / den) by (nonlinear_arith)
        requires num >= 0, den > 0;
    if spent <= u64::MAX {
        assert(spent * 1_000_000 / 365 <= 0xffff_ffff_ffff_ffff * 1_000_000 / 365) by (nonlinear_arith)
            requires 0 <= spent <= 0xffff_ffff_ffff_ffff;
    }
}

impl ProgressInfo {
    /// The progress of someone `spent_day` days old, of the given gender, under the record
    /// `country_info`.
    pub fn generate(spent_day: u64, gender: Option<Gender>, country_info: CountryInfo) -> (r: Self)
        requires
            country_info.is_valid(),
        ensures
            r == progress_info(spent_day as int, gender, country_info),
            r.progress as int + r.rest_progress as int == 10_000,
    {
        let life: u32 = match gender {
            Some(Gender::Male) => country_info.male,
            Some(Gender::Female) => country_info.female,
            None => country_info.all,
        };
        let spent = spent_day as u128;
        let total = life as u128 * DAYS_PER_YEAR as u128;
        let num = 2 * spent * 1_000_000 + total;
        let progress = num / (2 * total);
        let rest = if total >= spent * 100 { (total - spent * 100) / 100 } else { 0 };
        proof {
            lemma_progress_bounds(spent as int, life as int);
        }
        ProgressInfo {
            spent: spent_day,
            progress,
            rest: rest as u64,
            rest_progress: 10_000 - progress as i128,
        }
    }
}

/// The progress at `today` of someone born on `birthday`, under the record that applies to
/// `nation` in `dataset`. Fails with `FutureBirthday` when the birthday lies after today, and
/// with `Configuration` when the dataset has no `"Common"` entry.
pub fn get_progress_info(
    birthday: CivilDate,
    today: CivilDate,
    gender: Option<Gender>,
    nation: Option<&str>,
    dataset: &LifespanDataset,
) -> (r: Result<ProgressInfo, LifeError>)
    requires
        records_valid(dataset@),
    ensures
        r == progress_result(birthday, today, gender, opt_str_view(nation), dataset@),
{
    let elapsed: i64 = today.days_from_ce as i64 - birthday.days_from_ce as i64;
    if elapsed < 0 {
        return Err(LifeError::FutureBirthday);
    }
    match get_life_time(nation, dataset) {
        Ok(info) => {
            proof {
                lemma_resolve_valid(opt_str_view(nation), dataset@);
                lemma_progress_bounds(elapsed as int, info.lifetime_for(gender) as int);
            }
            Ok(ProgressInfo::generate(elapsed as u64, gender, info))
        },
        Err(e) => Err(e),
    }
}

proof fn lemma_resolve_valid(nation: Option<Seq<char>>, entries: Seq<(Seq<char>, CountryInfo)>)
    requires
        records_valid(entries),
    ensures
        resolve(nation, entries) is Some ==> resolve(nation, entries)->0.is_valid(),
{
    lemma_lookup_valid(entries, common_key());
    if let Some(n) = nation {
        lemma_lookup_valid(entries, n);
    }
}

/// The progress at `today` of someone whose birthday is written in `birthday` (see
/// `get_birthday_time`), under the record that applies to `nation` in `dataset`.
pub fn init(
    birthday: &str,
    today: CivilDate,
    gender: Option<Gender>,
    nation: Option<&str>,
    dataset: &LifespanDataset,
) -> (r: Result<ProgressInfo, LifeError>)
    requires
        records_valid(dataset@),
    ensures
        birthday_day(birthday.spec_bytes()) is None ==> r == Err::<ProgressInfo, LifeError>(
            LifeError::InvalidFormat,
        ),
        birthday_day(birthday.spec_bytes()) is Some ==> r == progress_result(
            (CivilDate { days_from_ce: birthday_day(birthday.spec_bytes())->0 as i32 }),
            today,
            gender,
            opt_str_view(nation),
            dataset@,
        ),
{
    match get_birthday_time(birthday) {
        Ok(born) => get_progress_info(born, today, gender, nation, dataset),
        Err(e) => Err(e),
    }
}

/// `progress` and `rest_progress` always add up to exactly one hundred percent.
pub proof fn lemma_progress_sums_to_hundred(spent: int, gender: Option<Gender>, info: CountryInfo)
    requires
        0 <= spent <= u64::MAX,
        info.is_valid(),
    ensures
        progress_info(spent, gender, info).progress as int + progress_info(
            spent,
            gender,
            info,
        ).rest_progress as int == 10_000,
{
    lemma_progress_bounds(spent, info.lifetime_for(gender) as int);
}

/// The progress is a function of its inputs alone: two computations from the same days,
/// gender and record give the same result.
pub proof fn lemma_progress_is_pure(
    spent: int,
    gender: Option<Gender>,
    info: CountryInfo,
    first: ProgressInfo,
    second: ProgressInfo,
)
    requires
        first == progress_info(spent, gender, info),
        second == progress_info(spent, gender, info),
    ensures
        first == second,
{
}

/// Someone born today has spent no days and no progress, and has all of it left.
pub proof fn lemma_born_today(
    day: CivilDate,
    gender: Option<Gender>,
    nation: Option<Seq<char>>,
    entries: Seq<(Seq<char>, CountryInfo)>,
)
    requires
        records_valid(entries),
        resolve(nation, entries) is Some,
    ensures
        progress_result(day, day, gender, nation, entries) is Ok,
        progress_result(day, day, gender, nation, entries)->Ok_0.spent == 0,
        progress_result(day, day, gender, nation, entries)->Ok_0.progress == 0,
        progress_result(day, day, gender, nation, entries)->Ok_0.rest_progress == 10_000,
{
    lemma_resolve_valid(nation, entries);
    let info = resolve(nation, entries)->0;
    let life = info.lifetime_for(gender) as int;
    assert(progress_of(0, life) == 0) by (nonlinear_arith)
        requires life > 0, progress_of(0, life) == (life * 365) / (2 * life * 365);
}

} // verus!
