//! Commit timestamps in Korea Standard Time.

use time::{Date, Month, PrimitiveDateTime, Time, UtcOffset};
use vstd::prelude::*;
use vstd::string::StringExecFns;

use crate::text::{
    all_digits, digits_to_u64, digits_value, is_ascii_digit, only_digits, to_chars,
};

verus! {

/// A year of 366 days.
pub open spec fn is_leap_year(year: int) -> bool {
    year % 4 == 0 && (year % 100 != 0 || year % 400 == 0)
}

/// The number of days in a month.
pub open spec fn days_in_month(year: int, month: int) -> int {
    if month == 2 {
        if is_leap_year(year) {
            29
        } else {
            28
        }
    } else if month == 4 || month == 6 || month == 9 || month == 11 {
        30
    } else {
        31
    }
}

/// There is such a day in the calendar.
pub open spec fn is_date(year: int, month: int, day: int) -> bool {
    1 <= month <= 12 && 1 <= day <= days_in_month(year, month)
}

/// The days of a year that come before a month.
pub open spec fn days_before_month(year: int, month: int) -> int
    decreases month,
{
    if month <= 1 {
        0
    } else {
        days_before_month(year, month - 1) + days_in_month(year, month - 1)
    }
}

/// The days from the first day of year 1 to the first day of a year.
pub open spec fn days_before_year(year: int) -> int {
    365 * (year - 1) + (year - 1) / 4 - (year - 1) / 100 + (year - 1) / 400
}

/// The days from 1970-01-01 to a date.
pub open spec fn days_since_epoch(year: int, month: int, day: int) -> int {
    days_before_year(year) + days_before_month(year, month) + day - 1 - 719162
}

/// The Unix timestamp of a full hour, `offset` hours ahead of UTC.
pub open spec fn hour_epoch(year: int, month: int, day: int, hour: int, offset: int) -> int {
    days_since_epoch(year, month, day) * 86400 + hour * 3600 - offset * 3600
}

/// What is said of a date that the calendar does not have.
pub open spec fn calendar_fault(month: int) -> Seq<char> {
    if 1 <= month <= 12 {
        "day was not in range"@
    } else {
        "month was not in range"@
    }
}

/// `time`: a calendar date and a full hour, read at an offset from UTC, as a Unix timestamp. The
/// calls are `Month::try_from`, `Date::from_calendar_date`, `Time::from_hms`, `UtcOffset::from_hms`,
/// `PrimitiveDateTime::assume_offset` and `OffsetDateTime::unix_timestamp`. They fail exactly where
/// the Gregorian calendar has no such date, with a text that names the month where there is no such
/// month, and else the day.
#[verifier::external_body]
fn civil_timestamp(year: i32, month: u8, day: u8, hour: u8, offset: i8) -> (r: Result<
    i64,
    String,
>)
    requires
        0 <= year <= 9999,
        hour < 24,
        -23 <= offset <= 23,
    ensures
        r is Ok == is_date(year as int, month as int, day as int),
        r matches Ok(epoch) ==> epoch == hour_epoch(
            year as int,
            month as int,
            day as int,
            hour as int,
            offset as int,
        ),
        r matches Err(fault) ==> fault@ == calendar_fault(month as int),
{
    let month = Month::try_from(month).map_err(|error| error.to_string())?;
    let date = Date::from_calendar_date(year, month, day).map_err(|error| error.to_string())?;
    let time = Time::from_hms(hour, 0, 0).map_err(|error| error.to_string())?;
    let offset = UtcOffset::from_hms(offset, 0, 0).map_err(|error| error.to_string())?;
    Ok(PrimitiveDateTime::new(date, time).assume_offset(offset).unix_timestamp())
}

/// Why a date has no timestamp.
#[derive(Debug)]
pub enum DateError {
    /// The date is not written as eight digits.
    NotCompact(String),
    /// The calendar has no such date, with the text that says what is wrong with it.
    NoSuchDate(String),
}

/// What a [`DateError`] stands for.
pub enum DateErrorModel {
    NotCompact(Seq<char>),
    NoSuchDate(Seq<char>),
}

impl View for DateError {
    type V = DateErrorModel;

    open spec fn view(&self) -> DateErrorModel {
        match *self {
            DateError::NotCompact(date) => DateErrorModel::NotCompact(date@),
            DateError::NoSuchDate(fault) => DateErrorModel::NoSuchDate(fault@),
        }
    }
}

/// The message of a [`DateError`].
pub open spec fn date_error_text(error: DateErrorModel) -> Seq<char> {
    match error {
        DateErrorModel::NotCompact(date) => "expected 공포일자 in YYYYMMDD form: "@ + date,
        DateErrorModel::NoSuchDate(fault) => fault,
    }
}

impl DateError {
    /// The message to show for this error.
    pub fn to_string(&self) -> (r: String)
        ensures
            r@ == date_error_text(self@),
    {
        match self {
            DateError::NotCompact(date) => {
                let mut out = "expected 공포일자 in YYYYMMDD form: ".to_owned();
                out.append(date.as_str());
                out
            },
            DateError::NoSuchDate(fault) => fault.clone(),
        }
    }
}

/// The day that stands for a date: the date itself, or 1970-01-01 for every earlier one.
pub open spec fn effective_day(date: nat) -> nat {
    if date < 19700101 {
        19700101
    } else {
        date
    }
}

/// The Unix timestamp of noon in Korea on a day that is written as one number, `YYYYMMDD`.
pub open spec fn noon_kst(day: nat) -> int {
    hour_epoch((day / 10000) as int, (day / 100 % 100) as int, (day % 100) as int, 12, 9)
}

/// The commit timestamp that belongs to a 공포일자.
pub open spec fn promulgation_epoch(date: Seq<char>) -> Result<int, DateErrorModel> {
    if date.len() == 0 {
        Ok(0)
    } else if date.len() != 8 || !all_digits(date) {
        Err(DateErrorModel::NotCompact(date))
    } else {
        let day = effective_day(digits_value(date));
        if is_date((day / 10000) as int, (day / 100 % 100) as int, (day % 100) as int) {
            Ok(noon_kst(day))
        } else {
            Err(DateErrorModel::NoSuchDate(calendar_fault((day / 100 % 100) as int)))
        }
    }
}

/// Commit timestamp rendered in Korea Standard Time (`+0900`).
#[derive(Debug, Clone, Copy)]
pub struct GitTimestampKst {
    /// Unix timestamp in seconds.
    epoch: i64,
}

impl View for GitTimestampKst {
    type V = int;

    closed spec fn view(&self) -> int {
        self.epoch as int
    }
}

/// The view of a timestamp or of the error that stands in its place.
pub open spec fn timestamp_result(r: Result<GitTimestampKst, DateError>) -> Result<
    int,
    DateErrorModel,
> {
    match r {
        Ok(time) => Ok(time@),
        Err(error) => Err(error@),
    }
}

proof fn lemma_short_value(s: Seq<char>)
    requires
        all_digits(s),
        s.len() <= 8,
    ensures
        digits_value(s) < 100000000,
{
    reveal_with_fuel(digits_value, 9);
    assert forall|i: int| 0 <= i < s.len() implies '0' <= #[trigger] s[i] <= '9' by {
        assert(is_ascii_digit(s[i]));
    }
}

impl GitTimestampKst {
    /// Converts a 공포일자 into the deterministic noon-KST commit timestamp.
    ///
    /// Accepts an empty string (returns the Unix epoch) or a bare `YYYYMMDD`
    /// value. Pre-epoch dates are clamped to `1970-01-01` so reruns keep
    /// producing the same commit ids.
    pub fn from_promulgation_date(date: &str) -> (r: Result<Self, DateError>)
        ensures
            timestamp_result(r) == promulgation_epoch(date@),
    {
        let chars = to_chars(date);
        if chars.len() == 0 {
            return Ok(GitTimestampKst { epoch: 0 });
        }
        if chars.len() != 8 || !only_digits(&chars) {
            return Err(DateError::NotCompact(date.to_owned()));
        }
        proof {
            lemma_short_value(chars@);
        }
        let written: u64 = match digits_to_u64(&chars) {
            Some(value) => value,
            None => 0,
        };
        let day: u64 = if written < 19700101 {
            19700101
        } else {
            written
        };
        let year = (day / 10000) as i32;
        let month = (day / 100 % 100) as u8;
        match civil_timestamp(year, month, (day % 100) as u8, 12, 9) {
            Ok(epoch) => Ok(GitTimestampKst { epoch }),
            Err(fault) => Err(DateError::NoSuchDate(fault)),
        }
    }

    /// Builds a timestamp from a raw Unix epoch (used for seed commits).
    pub fn from_epoch(epoch: i64) -> (r: Self)
        ensures
            r@ == epoch,
    {
        GitTimestampKst { epoch }
    }

    /// The Unix timestamp in seconds.
    pub fn epoch(&self) -> (r: i64)
        ensures
            r == self@,
    {
        self.epoch
    }
}

/// A commit timestamp that a written date gives is noon in Korea on some day from 1970-01-01 on.
pub proof fn lemma_noon_in_korea(date: Seq<char>)
    requires
        date.len() > 0,
        promulgation_epoch(date) is Ok,
    ensures
        (promulgation_epoch(date)->Ok_0 + 9 * 3600) % 86400 == 12 * 3600,
        promulgation_epoch(date)->Ok_0 >= 10800,
{
    let day = effective_day(digits_value(date));
    reveal_with_fuel(days_before_month, 13);
    if day > 19700101 {
        lemma_short_value(date);
        lemma_later_day(19700101, day);
    }
}

proof fn lemma_year(year: int)
    ensures
        days_before_year(year + 1) == days_before_year(year) + if is_leap_year(year) {
            366int
        } else {
            365
        },
{
    assert(year / 4 - (year - 1) / 4 == if year % 4 == 0 {
        1int
    } else {
        0
    });
    assert(year / 100 - (year - 1) / 100 == if year % 100 == 0 {
        1int
    } else {
        0
    });
    assert(year / 400 - (year - 1) / 400 == if year % 400 == 0 {
        1int
    } else {
        0
    });
}

proof fn lemma_years(a: int, b: int)
    requires
        a <= b,
    ensures
        days_before_year(b) >= days_before_year(a),
    decreases b - a,
{
    if a < b {
        lemma_years(a, b - 1);
        lemma_year(b - 1);
    }
}

proof fn lemma_months(year: int, a: int, b: int)
    requires
        1 <= a < b,
    ensures
        days_before_month(year, b) >= days_before_month(year, a) + days_in_month(year, a),
    decreases b,
{
    if a < b - 1 {
        lemma_months(year, a, b - 1);
    }
}

proof fn lemma_day_of_year(year: int, month: int, day: int)
    requires
        is_date(year, month, day),
    ensures
        1 <= days_before_month(year, month) + day <= if is_leap_year(year) {
            366int
        } else {
            365
        },
{
    reveal_with_fuel(days_before_month, 13);
}

/// Of two dates the later one has the later timestamp.
pub proof fn lemma_later_day(earlier: nat, later: nat)
    requires
        earlier < later,
        is_date(
            (earlier / 10000) as int,
            (earlier / 100 % 100) as int,
            (earlier % 100) as int,
        ),
        is_date((later / 10000) as int, (later / 100 % 100) as int, (later % 100) as int),
    ensures
        noon_kst(earlier) < noon_kst(later),
{
    let y = (earlier / 10000) as int;
    let m = (earlier / 100 % 100) as int;
    let d = (earlier % 100) as int;
    let yy = (later / 10000) as int;
    let mm = (later / 100 % 100) as int;
    let dd = (later % 100) as int;
    lemma_day_of_year(y, m, d);
    lemma_day_of_year(yy, mm, dd);
    if y < yy {
        lemma_year(y);
        lemma_years(y + 1, yy);
    } else if m < mm {
        lemma_months(y, m, mm);
    }
}

/// Dates that are written later come with timestamps that are not earlier.
pub proof fn lemma_epochs_follow_dates(earlier: Seq<char>, later: Seq<char>)
    requires
        earlier.len() == 8,
        later.len() == 8,
        all_digits(earlier),
        all_digits(later),
        digits_value(earlier) <= digits_value(later),
        promulgation_epoch(earlier) is Ok,
        promulgation_epoch(later) is Ok,
    ensures
        promulgation_epoch(earlier)->Ok_0 <= promulgation_epoch(later)->Ok_0,
{
    let a = effective_day(digits_value(earlier));
    let b = effective_day(digits_value(later));
    if a < b {
        lemma_later_day(a, b);
    }
}

/// The lengths of the months, and the years in which the second one has a day more.
pub proof fn lemma_calendar(year: int)
    ensures
        is_leap_year(year) <==> year % 400 == 0 || (year % 4 == 0 && year % 100 != 0),
        days_in_month(year, 1) == 31 && days_in_month(year, 3) == 31,
        days_in_month(year, 2) == if is_leap_year(year) {
            29int
        } else {
            28
        },
        days_in_month(year, 4) == 30 && days_in_month(year, 5) == 31,
        days_in_month(year, 6) == 30 && days_in_month(year, 7) == 31,
        days_in_month(year, 8) == 31 && days_in_month(year, 9) == 30,
        days_in_month(year, 10) == 31 && days_in_month(year, 11) == 30,
        days_in_month(year, 12) == 31,
{
}

/// Days are counted one by one from 1970-01-01: within a month, from the last day of a month to the
/// first of the next, and from the last day of a year to the first of the next.
pub proof fn lemma_days_are_counted(year: int, month: int, day: int)
    requires
        is_date(year, month, day),
    ensures
        days_since_epoch(1970, 1, 1) == 0,
        days_since_epoch(year, month, day + 1) == days_since_epoch(year, month, day) + 1,
        month < 12 && day == days_in_month(year, month) ==> days_since_epoch(year, month + 1, 1)
            == days_since_epoch(year, month, day) + 1,
        month == 12 && day == 31 ==> days_since_epoch(year + 1, 1, 1) == days_since_epoch(
            year,
            month,
            day,
        ) + 1,
{
    reveal_with_fuel(days_before_month, 13);
    lemma_year(year);
}

/// The number that eight digits denote, taken apart into year, month and day.
proof fn lemma_date_parts(year: Seq<char>, month: Seq<char>, day: Seq<char>)
    requires
        year.len() == 4 && all_digits(year),
        month.len() == 2 && all_digits(month),
        day.len() == 2 && all_digits(day),
    ensures
        ({
            let date = year + month + day;
            &&& all_digits(date)
            &&& digits_value(date) / 10000 == digits_value(year)
            &&& digits_value(date) / 100 % 100 == digits_value(month)
            &&& digits_value(date) % 100 == digits_value(day)
            &&& digits_value(year) < 10000 && digits_value(month) < 100 && digits_value(day) < 100
        }),
{
    let date = year + month + day;
    assert forall|i: int| 0 <= i < date.len() implies is_ascii_digit(#[trigger] date[i]) by {
        if i < 4 {
            assert(is_ascii_digit(year[i]));
        } else if i < 6 {
            assert(is_ascii_digit(month[i - 4]));
        } else {
            assert(is_ascii_digit(day[i - 6]));
        }
    }
    lemma_four_digits(year);
    lemma_two_digits(year, month);
    lemma_two_digits(year + month, day);
}

proof fn lemma_four_digits(year: Seq<char>)
    requires
        year.len() == 4 && all_digits(year),
    ensures
        digits_value(year) < 10000,
{
    reveal_with_fuel(digits_value, 5);
    assert(is_ascii_digit(year[0]) && is_ascii_digit(year[1]) && is_ascii_digit(year[2])
        && is_ascii_digit(year[3]));
}

proof fn lemma_two_digits(front: Seq<char>, two: Seq<char>)
    requires
        two.len() == 2 && all_digits(two),
    ensures
        digits_value(front + two) == 100 * digits_value(front) + digits_value(two),
        digits_value(two) < 100,
{
    reveal_with_fuel(digits_value, 3);
    assert(is_ascii_digit(two[0]) && is_ascii_digit(two[1]));
    let all = front + two;
    assert(all.drop_last() =~= front.push(two[0]));
    assert(all.drop_last().drop_last() =~= front);
    assert(all.last() == two[1]);
}

/// The timestamp of a date from 1970 on is noon in Korea, which is three hours after midnight of
/// that day in UTC. Every earlier date has that of 1970-01-01, and no date that of the epoch itself.
pub proof fn lemma_timestamp_of_date(year: Seq<char>, month: Seq<char>, day: Seq<char>)
    requires
        year.len() == 4 && all_digits(year),
        month.len() == 2 && all_digits(month),
        day.len() == 2 && all_digits(day),
    ensures
        ({
            let epoch = promulgation_epoch(year + month + day);
            let y = digits_value(year) as int;
            let m = digits_value(month) as int;
            let d = digits_value(day) as int;
            &&& y >= 1970 && is_date(y, m, d) ==> epoch == Ok::<_, DateErrorModel>(
                days_since_epoch(y, m, d) * 86400 + 3 * 3600,
            )
            &&& y < 1970 || (y == 1970 && 100 * m + d < 101) ==> epoch == Ok::<_, DateErrorModel>(
                10800int,
            )
            &&& (y > 1970 || (y == 1970 && 100 * m + d >= 101)) && !(1 <= m <= 12) ==> epoch
                == Err::<int, _>(DateErrorModel::NoSuchDate("month was not in range"@))
            &&& (y > 1970 || (y == 1970 && 100 * m + d >= 101)) && 1 <= m <= 12 && !(1 <= d
                <= days_in_month(y, m)) ==> epoch == Err::<int, _>(
                DateErrorModel::NoSuchDate("day was not in range"@),
            )
            &&& promulgation_epoch(Seq::empty()) == Ok::<_, DateErrorModel>(0int)
        }),
{
    lemma_date_parts(year, month, day);
    lemma_days_are_counted(1970, 1, 1);
    let date = year + month + day;
    let n = digits_value(date);
    assert(n == 10000 * digits_value(year) + 100 * digits_value(month) + digits_value(day));
}

/// A text that is not empty and not eight digits has no timestamp, and the error says what was
/// expected and what was found.
pub proof fn lemma_no_timestamp(date: Seq<char>)
    requires
        date.len() > 0,
        date.len() != 8 || !all_digits(date),
    ensures
        promulgation_epoch(date) matches Err(error) && date_error_text(error)
            == "expected 공포일자 in YYYYMMDD form: "@ + date,
        date_error_text(DateErrorModel::NoSuchDate(date)) == date,
{
}

} // verus!
