//! Reading a birthday from text in one of three shapes.
use vstd::prelude::*;
use vstd::string::StringSliceAdditionalSpecFns;
use crate::calendar::{
    days_from_ce, is_valid_ymd, timestamp_day, timestamp_day_number, ymd_day_number, CivilDate,
    MAX_DAY, MIN_DAY,
};
use crate::error::LifeError;

verus! {

/// The byte of `-`.
pub const DASH: u8 = 45;

/// The byte of `+`.
pub const PLUS: u8 = 43;

pub open spec fn is_digit(c: u8) -> bool {
    48 <= c <= 57
}

pub open spec fn all_digits(b: Seq<u8>) -> bool {
    forall|i: int| 0 <= i < b.len() ==> is_digit(#[trigger] b[i])
}

/// The number that a run of decimal digits writes.
pub open spec fn digits_value(b: Seq<u8>) -> int
    decreases b.len(),
{
    if b.len() == 0 {
        0
    } else {
        digits_value(b.drop_last()) * 10 + (b.last() - 48)
    }
}

pub open spec fn has_dash(b: Seq<u8>) -> bool {
    exists|i: int| 0 <= i < b.len() && b[i] == DASH
}

/// Year, month and day written with four, two and two digits at the given offsets.
pub open spec fn fields_at(b: Seq<u8>, y: int, m: int, d: int) -> Option<(int, int, int)> {
    if all_digits(b.subrange(y, y + 4)) && all_digits(b.subrange(m, m + 2)) && all_digits(
        b.subrange(d, d + 2),
    ) {
        Some(
            (
                digits_value(b.subrange(y, y + 4)),
                digits_value(b.subrange(m, m + 2)),
                digits_value(b.subrange(d, d + 2)),
            ),
        )
    } else {
        None
    }
}

/// Year, month and day written as `YYYY-MM-DD`, zero-padded, nothing before or after.
pub open spec fn dashed_fields(b: Seq<u8>) -> Option<(int, int, int)> {
    if b.len() == 10 && b[4] == DASH && b[7] == DASH {
        fields_at(b, 0, 5, 8)
    } else {
        None
    }
}

/// Year, month and day written as `YYYYMMDD`.
pub open spec fn compact_fields(b: Seq<u8>) -> Option<(int, int, int)> {
    if b.len() == 8 {
        fields_at(b, 0, 4, 6)
    } else {
        None
    }
}

/// The `i64` written in base 10 with an optional sign, as `str::parse::<i64>` reads it.
pub open spec fn millis_value(b: Seq<u8>) -> Option<int> {
    let signed = b.len() > 0 && (b[0] == DASH || b[0] == PLUS);
    let digits = if signed { b.subrange(1, b.len() as int) } else { b };
    let v = if b.len() > 0 && b[0] == DASH { -digits_value(digits) } else { digits_value(digits) };
    if digits.len() > 0 && all_digits(digits) && i64::MIN <= v <= i64::MAX {
        Some(v)
    } else {
        None
    }
}

/// The day that a valid year, month and day name, if they do.
pub open spec fn ymd_day(f: Option<(int, int, int)>) -> Option<int> {
    match f {
        Some((y, m, d)) => if is_valid_ymd(y, m, d) {
            Some(days_from_ce(y, m, d))
        } else {
            None
        },
        None => None,
    }
}

/// The day that birthday text names: `YYYY-MM-DD` when it holds a dash, else `YYYYMMDD` when
/// it is eight bytes long, else a count of milliseconds since the Unix epoch.
pub open spec fn birthday_day(b: Seq<u8>) -> Option<int> {
    if has_dash(b) {
        ymd_day(dashed_fields(b))
    } else if b.len() == 8 {
        ymd_day(compact_fields(b))
    } else {
        match millis_value(b) {
            Some(ms) => if MIN_DAY <= timestamp_day(ms) <= MAX_DAY {
                Some(timestamp_day(ms))
            } else {
                None
            },
            None => None,
        }
    }
}

proof fn lemma_digits_step(b: Seq<u8>, lo: int, i: int)
    requires
        0 <= lo <= i < b.len(),
    ensures
        digits_value(b.subrange(lo, i + 1)) == digits_value(b.subrange(lo, i)) * 10 + (b[i] - 48),
{
    assert(b.subrange(lo, i + 1).drop_last() =~= b.subrange(lo, i));
}

proof fn lemma_digits_nonneg(b: Seq<u8>)
    requires
        all_digits(b),
    ensures
        digits_value(b) >= 0,
    decreases b.len(),
{
    if b.len() > 0 {
        assert(all_digits(b.drop_last()));
        lemma_digits_nonneg(b.drop_last());
        assert(is_digit(b[b.len() - 1]));
    }
}

/// Whether `b` holds a dash.
fn contains_dash(b: &[u8]) -> (r: bool)
    ensures
        r == has_dash(b@),
{
    let mut i: usize = 0;
    while i < b.len()
        invariant
            i <= b@.len(),
            forall|j: int| 0 <= j < i ==> b@[j] != DASH,
        decreases b.len() - i,
    {
        if b[i] == DASH {
            return true;
        }
        i += 1;
    }
    false
}

/// The value of the digits in `b[lo..hi]`, at most four of them, if all are digits.
fn read_digits(b: &[u8], lo: usize, hi: usize) -> (r: Option<i32>)
    requires
        lo <= hi <= b@.len(),
        hi - lo <= 4,
    ensures
        r is Some <==> all_digits(b@.subrange(lo as int, hi as int)),
        r is Some ==> r->0 as int == digits_value(b@.subrange(lo as int, hi as int)),
        r is Some ==> 0 <= r->0 <= 9999,
{
    let mut acc: i32 = 0;
    let mut i: usize = lo;
    while i < hi
        invariant
            lo <= i <= hi,
            hi <= b@.len(),
            hi - lo <= 4,
            all_digits(b@.subrange(lo as int, i as int)),
            acc as int == digits_value(b@.subrange(lo as int, i as int)),
            0 <= acc,
            i - lo == 0 ==> acc < 1,
            i - lo == 1 ==> acc < 10,
            i - lo == 2 ==> acc < 100,
            i - lo == 3 ==> acc < 1000,
            i - lo == 4 ==> acc < 10000,
        decreases hi - i,
    {
        let c = b[i];
        if c < 48 || c > 57 {
            assert(!is_digit(b@.subrange(lo as int, hi as int)[i - lo]));
            return None;
        }
        proof {
            lemma_digits_step(b@, lo as int, i as int);
            assert(all_digits(b@.subrange(lo as int, i + 1)) ) by {
                assert forall|j: int| 0 <= j < i + 1 - lo implies is_digit(#[trigger] b@.subrange(lo as int, i + 1)[j]) by {
                    if j < i - lo {
                        assert(b@.subrange(lo as int, i + 1)[j] == b@.subrange(lo as int, i as int)[j]);
                    }
                }
            }
        }
        acc = acc * 10 + (c - 48) as i32;
        i += 1;
    }
    Some(acc)
}

/// The day that the year, month and day at the given offsets of `b` name, if they are
/// digits and name a real day.
fn day_at(b: &[u8], y: usize, m: usize, d: usize) -> (r: Option<i32>)
    requires
        y + 4 <= b@.len(),
        m + 2 <= b@.len(),
        d + 2 <= b@.len(),
    ensures
        r is Some <==> ymd_day(fields_at(b@, y as int, m as int, d as int)) is Some,
        r is Some ==> r->0 as int == ymd_day(fields_at(b@, y as int, m as int, d as int))->0,
{
    // The call bounds the slice length, and with it the offsets below, by `usize::MAX`.
    let _len = b.len();
    let yy = read_digits(b, y, y + 4);
    let mm = read_digits(b, m, m + 2);
    let dd = read_digits(b, d, d + 2);
    match (yy, mm, dd) {
        (Some(yv), Some(mv), Some(dv)) => ymd_day_number(yv, mv as u32, dv as u32),
        _ => None,
    }
}

proof fn lemma_digits_bound4(b: Seq<u8>)
    requires
        b.len() == 4,
        all_digits(b),
    ensures
        0 <= digits_value(b) <= 9999,
{
    let b3 = b.drop_last();
    let b2 = b3.drop_last();
    let b1 = b2.drop_last();
    assert(b1.drop_last() =~= Seq::<u8>::empty());
    assert(is_digit(b[0]) && is_digit(b[1]) && is_digit(b[2]) && is_digit(b[3]));
    assert(b1[0] == b[0] && b2[1] == b[1] && b3[2] == b[2]);
    assert(digits_value(b1.drop_last()) == 0);
    assert(digits_value(b1) == b[0] - 48);
    assert(digits_value(b2) == digits_value(b1) * 10 + (b[1] - 48));
    assert(digits_value(b3) == digits_value(b2) * 10 + (b[2] - 48));
    assert(digits_value(b) == digits_value(b3) * 10 + (b[3] - 48));
}

/// The same calendar day written as `YYYY-MM-DD`, as `YYYYMMDD`, and as a count of
/// milliseconds that falls on it, reads as that one day each time. (A count written with a
/// sign `-`, or in eight digits, is read in another shape, and is left out.)
pub proof fn lemma_shapes_agree(
    dashed: Seq<u8>,
    compact: Seq<u8>,
    millis: Seq<u8>,
    y: int,
    m: int,
    d: int,
    ms: int,
)
    requires
        dashed_fields(dashed) == Some((y, m, d)),
        compact_fields(compact) == Some((y, m, d)),
        is_valid_ymd(y, m, d),
        millis_value(millis) == Some(ms),
        timestamp_day(ms) == days_from_ce(y, m, d),
        !has_dash(millis),
        millis.len() != 8,
    ensures
        birthday_day(dashed) == Some(days_from_ce(y, m, d)),
        birthday_day(compact) == Some(days_from_ce(y, m, d)),
        birthday_day(millis) == Some(days_from_ce(y, m, d)),
{
    assert(dashed[4] == DASH);
    assert(!has_dash(compact)) by {
        assert forall|i: int| 0 <= i < compact.len() implies compact[i] != DASH by {
            if i < 4 {
                assert(is_digit(compact.subrange(0, 4)[i]));
            } else if i < 6 {
                assert(is_digit(compact.subrange(4, 6)[i - 4]));
            } else {
                assert(is_digit(compact.subrange(6, 8)[i - 6]));
            }
        }
    }
    lemma_digits_bound4(compact.subrange(0, 4));
}

/// One more than the largest magnitude an `i64` can have.
const MAGNITUDE_CAP: u128 = 9_223_372_036_854_775_809;

/// The `i64` that `b` writes in base 10 with an optional sign.
fn parse_millis(b: &[u8]) -> (r: Option<i64>)
    ensures
        r is Some <==> millis_value(b@) is Some,
        r is Some ==> r->0 as int == millis_value(b@)->0,
{
    let n = b.len();
    if n == 0 {
        return None;
    }
    let negative = b[0] == DASH;
    let start: usize = if b[0] == DASH || b[0] == PLUS { 1 } else { 0 };
    let ghost digits = b@.subrange(start as int, n as int);
    assert(digits =~= if b@[0] == DASH || b@[0] == PLUS {
        b@.subrange(1, n as int)
    } else {
        b@
    });
    if start == n {
        return None;
    }
    let mut acc: u128 = 0;
    let mut i: usize = start;
    while i < n
        invariant
            start <= i <= n,
            n == b@.len(),
            digits == b@.subrange(start as int, n as int),
            n > 0,
            digits == (if b@[0] == DASH || b@[0] == PLUS {
                b@.subrange(1, n as int)
            } else {
                b@
            }),
            all_digits(b@.subrange(start as int, i as int)),
            acc as int == if digits_value(b@.subrange(start as int, i as int)) < MAGNITUDE_CAP {
                digits_value(b@.subrange(start as int, i as int))
            } else {
                MAGNITUDE_CAP as int
            },
        decreases n - i,
    {
        let c = b[i];
        if c < 48 || c > 57 {
            assert(!is_digit(digits[i - start]));
            assert(!all_digits(digits));
            return None;
        }
        proof {
            lemma_digits_step(b@, start as int, i as int);
            lemma_digits_nonneg(b@.subrange(start as int, i as int));
            assert(all_digits(b@.subrange(start as int, i + 1))) by {
                assert forall|j: int| 0 <= j < i + 1 - start implies is_digit(
                    #[trigger] b@.subrange(start as int, i + 1)[j],
                ) by {
                    if j < i - start {
                        assert(b@.subrange(start as int, i + 1)[j] == b@.subrange(
                            start as int,
                            i as int,
                        )[j]);
                    }
                }
            }
        }
        let t = acc * 10 + (c - 48) as u128;
        acc = if t > MAGNITUDE_CAP { MAGNITUDE_CAP } else { t };
        i += 1;
    }
    assert(b@.subrange(start as int, n as int) =~= digits);
    proof {
        lemma_digits_nonneg(digits);
    }
    assert(all_digits(digits));
    assert(negative == (b@.len() > 0 && b@[0] == DASH));
    if negative {
        if acc < MAGNITUDE_CAP - 1 {
            Some(-(acc as i64))
        } else if acc == MAGNITUDE_CAP - 1 {
            Some(i64::MIN)
        } else {
            None
        }
    } else if acc < MAGNITUDE_CAP - 1 {
        Some(acc as i64)
    } else {
        None
    }
}

/// Reads a birthday written as `YYYY-MM-DD` (when the text holds a dash), as `YYYYMMDD` (when it
/// is eight bytes long), or else as a count of milliseconds since the Unix epoch, of which the
/// day in UTC is kept.
pub fn get_birthday_time(birthday: &str) -> (r: Result<CivilDate, LifeError>)
    ensures
        r is Ok <==> birthday_day(birthday.spec_bytes()) is Some,
        r is Ok ==> r->Ok_0.days_from_ce as int == birthday_day(birthday.spec_bytes())->0,
        r is Err ==> r->Err_0 == LifeError::InvalidFormat,
{
    let b = birthday.as_bytes();
    let day = if contains_dash(b) {
        if b.len() == 10 && b[4] == DASH && b[7] == DASH {
            day_at(b, 0, 5, 8)
        } else {
            None
        }
    } else if b.len() == 8 {
        day_at(b, 0, 4, 6)
    } else {
        match parse_millis(b) {
            Some(ms) => timestamp_day_number(ms),
            None => None,
        }
    };
    match day {
        Some(d) => Ok(CivilDate { days_from_ce: d }),
        None => Err(LifeError::InvalidFormat),
    }
}

} // verus!
