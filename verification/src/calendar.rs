//! The proleptic Gregorian calendar, and timestamps counted on it in seconds.
use vstd::prelude::*;

verus! {

/// Seconds in a day.
pub const SECONDS_PER_DAY: i64 = 86_400;

/// The first year that a date can lie in.
pub const MIN_YEAR: i32 = -262_143;

/// The last year that a date can lie in.
pub const MAX_YEAR: i32 = 262_142;

/// How a timestamp is written: date and time of day to the second, without a time zone.
pub const ISO_PATTERN: &'static str = "%Y-%m-%dT%H:%M:%S";

/// A calendar date.
pub struct Civil {
    pub year: int,
    pub month: int,
    pub day: int,
}

/// Whether `year` has a 29th of February.
pub open spec fn is_leap(year: int) -> bool {
    year % 4 == 0 && (year % 100 != 0 || year % 400 == 0)
}

/// The number of days in a month.
pub open spec fn days_in_month(year: int, month: int) -> int {
    if month == 2 {
        if is_leap(year) {
            29
        } else {
            28
        }
    } else if month == 4 || month == 6 || month == 9 || month == 11 {
        30
    } else {
        31
    }
}

/// The number of leap years from year 1 to the one before `year` (negative for those before year 1).
pub open spec fn leap_years_before(year: int) -> int {
    (year - 1) / 4 - (year - 1) / 100 + (year - 1) / 400
}

/// The number of days from 1970-01-01 to the first of January of `year`.
pub open spec fn days_before_year(year: int) -> int {
    365 * (year - 1970) + leap_years_before(year) - leap_years_before(1970)
}

/// The number of days of `year` before the first of `month`.
pub open spec fn days_before_month(year: int, month: int) -> int
    decreases month,
{
    if month <= 1 {
        0
    } else {
        days_before_month(year, month - 1) + days_in_month(year, month - 1)
    }
}

impl Civil {
    /// Whether the calendar has this date.
    pub open spec fn valid(self) -> bool {
        &&& 1 <= self.month <= 12
        &&& 1 <= self.day <= days_in_month(self.year, self.month)
    }

    /// The number of days from 1970-01-01 to this date.
    pub open spec fn day_number(self) -> int {
        days_before_year(self.year) + days_before_month(self.year, self.month) + self.day - 1
    }
}

/// The date that lies `day_number` days after 1970-01-01.
pub open spec fn civil_date(day_number: int) -> Civil {
    choose|date: Civil| date.valid() && #[trigger] date.day_number() == day_number
}

/// A moment, to the second, in no particular time zone.
#[derive(Clone, Copy, Debug, PartialEq, Eq, Structural)]
pub struct Timestamp {
    /// Seconds from 1970-01-01T00:00:00.
    pub seconds: i64,
}

impl Timestamp {
    /// Whether the moment lies in a year from `MIN_YEAR` to `MAX_YEAR`.
    pub open spec fn valid(self) -> bool {
        days_before_year(MIN_YEAR as int) <= self.seconds as int / 86_400 < days_before_year(
            MAX_YEAR + 1,
        )
    }
}

/// The decimal digit for `n`.
pub open spec fn digit(n: int) -> char {
    (0x30 + n) as char
}

/// The last `width` decimal digits of `n`.
pub open spec fn decimal(n: int, width: nat) -> Seq<char>
    decreases width,
{
    if width == 0 {
        Seq::empty()
    } else {
        decimal(n / 10, (width - 1) as nat).push(digit(n % 10))
    }
}

/// A year in at least four digits, with a sign where it lies outside 0 to 9999.
pub open spec fn year_text(year: int) -> Seq<char> {
    let magnitude = if year < 0 {
        -year
    } else {
        year
    };
    let width: nat = if magnitude <= 9999 {
        4
    } else if magnitude <= 99_999 {
        5
    } else {
        6
    };
    let sign = if year < 0 {
        seq!['-']
    } else if year > 9999 {
        seq!['+']
    } else {
        Seq::empty()
    };
    sign + decimal(magnitude, width)
}

/// The ISO 8601 form `YYYY-MM-DDTHH:MM:SS` of a moment given in seconds from 1970-01-01T00:00:00.
pub open spec fn iso_text(seconds: int) -> Seq<char> {
    let date = civil_date(seconds / 86_400);
    let time = seconds % 86_400;
    year_text(date.year) + seq!['-'] + decimal(date.month, 2) + seq!['-'] + decimal(date.day, 2)
        + seq!['T'] + decimal(time / 3600, 2) + seq![':'] + decimal(time / 60 % 60, 2) + seq![':']
        + decimal(time % 60, 2)
}

/// `chrono::NaiveDate::from_ymd_opt`, followed by the conversion of that day's midnight to seconds
/// from 1970-01-01T00:00:00 (`NaiveDate::and_time`, `NaiveDateTime::and_utc` and
/// `DateTime::timestamp`): a date that the proleptic Gregorian calendar has, in a year that chrono
/// can hold, gives its day number in seconds, any other triple gives nothing.
#[verifier::external_body]
pub(crate) fn midnight_seconds(year: i32, month: u32, day: u32) -> (seconds: Option<i64>)
    ensures
        seconds == ({
            let date = Civil { year: year as int, month: month as int, day: day as int };
            if date.valid() && MIN_YEAR <= year <= MAX_YEAR {
                Some((date.day_number() * 86_400) as i64)
            } else {
                None
            }
        }),
{
    match chrono::NaiveDate::from_ymd_opt(year, month, day) {
        Some(date) => Some(date.and_time(chrono::NaiveTime::MIN).and_utc().timestamp()),
        None => None,
    }
}

/// `chrono::NaiveDateTime::format` on the date and time of day `seconds` after
/// 1970-01-01T00:00:00 (`DateTime::from_timestamp`), with the pattern `ISO_PATTERN`: year, month,
/// day, hour, minute and second, each zero-padded, the year with a sign outside 0 to 9999.
#[verifier::external_body]
pub(crate) fn format_seconds(seconds: i64, pattern: &str) -> (text: String)
    requires
        (Timestamp { seconds }).valid(),
        pattern@ == ISO_PATTERN@,
    ensures
        text@ == iso_text(seconds as int),
{
    let moment = chrono::DateTime::<chrono::Utc>::from_timestamp(seconds, 0).unwrap();
    moment.naive_utc().format(pattern).to_string()
}

/// The first of January of the next year is 365 or 366 days on.
proof fn lemma_year_length(year: int)
    ensures
        days_before_year(year + 1) == days_before_year(year) + (if is_leap(year) {
            366int
        } else {
            365
        }),
{
}

proof fn lemma_years_grow(first: int, second: int)
    requires
        first < second,
    ensures
        days_before_year(first) + (if is_leap(first) {
            366int
        } else {
            365
        }) <= days_before_year(second),
    decreases second - first,
{
    lemma_year_length(second - 1);
    if first < second - 1 {
        lemma_years_grow(first, second - 1);
    }
}

proof fn lemma_months_grow(year: int, first: int, second: int)
    requires
        1 <= first < second <= 13,
    ensures
        days_before_month(year, first) + days_in_month(year, first) <= days_before_month(year, second),
    decreases second - first,
{
    if first < second - 1 {
        lemma_months_grow(year, first, second - 1);
    }
}

proof fn lemma_months_fill_year(year: int)
    ensures
        days_before_month(year, 13) == (if is_leap(year) {
            366int
        } else {
            365
        }),
{
    reveal_with_fuel(days_before_month, 14);
}

/// Where a date lies within its year.
proof fn lemma_day_in_year(date: Civil)
    requires
        date.valid(),
    ensures
        days_before_year(date.year) <= date.day_number() < days_before_year(date.year + 1),
    decreases date.month,
{
    lemma_months_fill_year(date.year);
    lemma_year_length(date.year);
    lemma_months_grow(date.year, date.month, 13);
    if date.month > 1 {
        lemma_months_grow(date.year, 1, date.month);
    }
}

/// Two dates with the same day number are the same date.
pub proof fn lemma_day_number_injective(first: Civil, second: Civil)
    requires
        first.valid(),
        second.valid(),
        first.day_number() == second.day_number(),
    ensures
        first == second,
{
    lemma_day_in_year(first);
    lemma_day_in_year(second);
    if first.year < second.year {
        lemma_years_grow(first.year, second.year);
        lemma_year_length(first.year);
    } else if second.year < first.year {
        lemma_years_grow(second.year, first.year);
        lemma_year_length(second.year);
    } else if first.month < second.month {
        lemma_months_grow(first.year, first.month, second.month);
    } else if second.month < first.month {
        lemma_months_grow(first.year, second.month, first.month);
    }
}

/// Every day number is that of exactly one date of the calendar.
pub proof fn lemma_civil_date(day_number: int)
    ensures
        civil_date(day_number).valid(),
        civil_date(day_number).day_number() == day_number,
{
    lemma_some_date(day_number);
}

/// The year of a date lies between those that its day number lies between.
pub proof fn lemma_year_bounds(day_number: int, first: int, last: int)
    requires
        days_before_year(first) <= day_number < days_before_year(last + 1),
    ensures
        first <= civil_date(day_number).year <= last,
{
    let date = civil_date(day_number);
    lemma_civil_date(day_number);
    lemma_day_in_year(date);
    if date.year < first {
        lemma_year_length(date.year);
        lemma_years_grow(date.year, first);
    }
    if date.year > last {
        if date.year > last + 1 {
            lemma_years_grow(last + 1, date.year);
        }
    }
}

proof fn lemma_some_date(day_number: int)
    ensures
        exists|date: Civil| date.valid() && #[trigger] date.day_number() == day_number,
    decreases
            (if day_number < 0 {
                -day_number
            } else {
                day_number
            }),
{
    if day_number == 0 {
        let date = Civil { year: 1970, month: 1, day: 1 };
        assert(date.valid() && date.day_number() == 0);
    } else if day_number > 0 {
        lemma_some_date(day_number - 1);
        let eve = choose|date: Civil| date.valid() && #[trigger] date.day_number() == day_number - 1;
        lemma_year_length(eve.year);
        lemma_months_fill_year(eve.year);
        let date = if eve.day < days_in_month(eve.year, eve.month) {
            Civil { day: eve.day + 1, ..eve }
        } else if eve.month < 12 {
            Civil { year: eve.year, month: eve.month + 1, day: 1 }
        } else {
            Civil { year: eve.year + 1, month: 1, day: 1 }
        };
        assert(days_before_month(eve.year, eve.month + 1) == days_before_month(eve.year, eve.month)
            + days_in_month(eve.year, eve.month));
        assert(date.valid() && date.day_number() == day_number);
    } else {
        lemma_some_date(day_number + 1);
        let morrow = choose|date: Civil|
            date.valid() && #[trigger] date.day_number() == day_number + 1;
        lemma_year_length(morrow.year - 1);
        lemma_months_fill_year(morrow.year - 1);
        let date = if morrow.day > 1 {
            Civil { day: morrow.day - 1, ..morrow }
        } else if morrow.month > 1 {
            Civil {
                year: morrow.year,
                month: morrow.month - 1,
                day: days_in_month(morrow.year, morrow.month - 1),
            }
        } else {
            Civil { year: morrow.year - 1, month: 12, day: 31 }
        };
        assert(date.valid() && date.day_number() == day_number);
    }
}

/// The number of numbers that can be written in `width` decimal digits.
spec fn ten_power(width: nat) -> int
    decreases width,
{
    if width == 0 {
        1
    } else {
        10 * ten_power((width - 1) as nat)
    }
}

/// Decimal digits tell numbers apart for which they suffice.
proof fn lemma_decimal_distinct(a: int, b: int, width: nat)
    requires
        0 <= a < ten_power(width),
        0 <= b < ten_power(width),
        decimal(a, width) == decimal(b, width),
    ensures
        a == b,
    decreases width,
{
    if width > 0 {
        let fewer = (width - 1) as nat;
        let text = decimal(a, width);
        assert(text.last() == digit(a % 10) && text.last() == digit(b % 10));
        assert(text.drop_last() =~= decimal(a / 10, fewer));
        assert(text.drop_last() =~= decimal(b / 10, fewer));
        lemma_decimal_distinct(a / 10, b / 10, fewer);
    }
}

proof fn lemma_decimal_len(n: int, width: nat)
    ensures
        decimal(n, width).len() == width,
    decreases width,
{
    if width > 0 {
        lemma_decimal_len(n / 10, (width - 1) as nat);
    }
}

/// Where the parts of the ISO 8601 form stand, in a year of four digits.
proof fn lemma_iso_parts(seconds: int)
    requires
        0 <= civil_date(seconds / 86_400).year <= 9999,
    ensures
        ({
            let text = iso_text(seconds);
            let date = civil_date(seconds / 86_400);
            let time = seconds % 86_400;
            &&& text.len() == 19
            &&& text[4] == '-' && text[7] == '-' && text[10] == 'T' && text[13] == ':' && text[16]
                == ':'
            &&& text.subrange(0, 4) == decimal(date.year, 4)
            &&& text.subrange(5, 7) == decimal(date.month, 2)
            &&& text.subrange(8, 10) == decimal(date.day, 2)
            &&& text.subrange(11, 13) == decimal(time / 3600, 2)
            &&& text.subrange(14, 16) == decimal(time / 60 % 60, 2)
            &&& text.subrange(17, 19) == decimal(time % 60, 2)
        }),
{
    let text = iso_text(seconds);
    let date = civil_date(seconds / 86_400);
    let time = seconds % 86_400;
    lemma_decimal_len(date.year, 4);
    lemma_decimal_len(date.month, 2);
    lemma_decimal_len(date.day, 2);
    lemma_decimal_len(time / 3600, 2);
    lemma_decimal_len(time / 60 % 60, 2);
    lemma_decimal_len(time % 60, 2);
    assert(year_text(date.year) =~= decimal(date.year, 4));
    assert(text.subrange(0, 4) =~= decimal(date.year, 4));
    assert(text.subrange(5, 7) =~= decimal(date.month, 2));
    assert(text.subrange(8, 10) =~= decimal(date.day, 2));
    assert(text.subrange(11, 13) =~= decimal(time / 3600, 2));
    assert(text.subrange(14, 16) =~= decimal(time / 60 % 60, 2));
    assert(text.subrange(17, 19) =~= decimal(time % 60, 2));
}

/// The ISO 8601 form loses nothing: two moments with the same form, in years from 0 to 9999, are the
/// same.
pub proof fn lemma_iso_distinct(a: int, b: int)
    requires
        0 <= civil_date(a / 86_400).year <= 9999,
        0 <= civil_date(b / 86_400).year <= 9999,
        iso_text(a) == iso_text(b),
    ensures
        a == b,
{
    let first = civil_date(a / 86_400);
    let second = civil_date(b / 86_400);
    lemma_civil_date(a / 86_400);
    lemma_civil_date(b / 86_400);
    lemma_iso_parts(a);
    lemma_iso_parts(b);
    reveal_with_fuel(ten_power, 5);
    lemma_decimal_distinct(first.year, second.year, 4);
    lemma_decimal_distinct(first.month, second.month, 2);
    lemma_decimal_distinct(first.day, second.day, 2);
    lemma_decimal_distinct(a % 86_400 / 3600, b % 86_400 / 3600, 2);
    lemma_decimal_distinct(a % 86_400 / 60 % 60, b % 86_400 / 60 % 60, 2);
    lemma_decimal_distinct(a % 86_400 % 60, b % 86_400 % 60, 2);
}

/// The lengths of the months. February has a 29th day in the years that 4 divides, but of those that
/// 100 divides only in those that 400 divides.
pub proof fn lemma_month_lengths(year: int)
    ensures
        days_in_month(year, 1) == 31,
        year % 4 != 0 ==> days_in_month(year, 2) == 28,
        year % 4 == 0 && year % 100 != 0 ==> days_in_month(year, 2) == 29,
        year % 100 == 0 && year % 400 != 0 ==> days_in_month(year, 2) == 28,
        year % 400 == 0 ==> days_in_month(year, 2) == 29,
        days_in_month(year, 3) == 31,
        days_in_month(year, 4) == 30,
        days_in_month(year, 5) == 31,
        days_in_month(year, 6) == 30,
        days_in_month(year, 7) == 31,
        days_in_month(year, 8) == 31,
        days_in_month(year, 9) == 30,
        days_in_month(year, 10) == 31,
        days_in_month(year, 11) == 30,
        days_in_month(year, 12) == 31,
{
}

/// The number of a day is 0 on 1970-01-01 and one more on each following day, within a month, from
/// the end of a month to the start of the next, and from the end of a year to the start of the next.
pub proof fn lemma_day_after_day(year: int, month: int, day: int)
    ensures
        (Civil { year: 1970, month: 1, day: 1 }).day_number() == 0,
        (Civil { year, month, day: day + 1 }).day_number() == (Civil { year, month, day }).day_number()
            + 1,
        1 <= month < 12 ==> (Civil { year, month: month + 1, day: 1 }).day_number() == (Civil {
            year,
            month,
            day: days_in_month(year, month),
        }).day_number() + 1,
        (Civil { year: year + 1, month: 1, day: 1 }).day_number() == (Civil {
            year,
            month: 12,
            day: 31,
        }).day_number() + 1,
{
    lemma_year_length(year);
    reveal_with_fuel(days_before_month, 13);
}

/// What a decimal digit counts.
pub open spec fn count_of(c: char) -> int {
    c as int - '0' as int
}

proof fn lemma_decimal_digits(n: int)
    ensures
        0 <= n < 100 ==> {
            let text = decimal(n, 2);
            &&& text.len() == 2
            &&& 0 <= count_of(text[0]) <= 9 && 0 <= count_of(text[1]) <= 9
            &&& n == 10 * count_of(text[0]) + count_of(text[1])
        },
{
    reveal_with_fuel(decimal, 3);
}

proof fn lemma_year_digits(n: int)
    requires
        0 <= n < 10_000,
    ensures
        ({
            let text = decimal(n, 4);
            &&& text.len() == 4
            &&& 0 <= count_of(text[0]) <= 9 && 0 <= count_of(text[1]) <= 9
            &&& 0 <= count_of(text[2]) <= 9 && 0 <= count_of(text[3]) <= 9
            &&& n == 1000 * count_of(text[0]) + 100 * count_of(text[1]) + 10 * count_of(text[2])
                + count_of(text[3])
        }),
{
    let m = n / 100;
    lemma_decimal_digits(m);
    assert(decimal(n, 3) == decimal(n / 10, 2).push(digit(n % 10)));
    assert(decimal(n, 4) == decimal(n / 10, 3).push(digit(n % 10)));
    assert(decimal(n / 10, 3) == decimal(n / 10 / 10, 2).push(digit(n / 10 % 10)));
    assert(n / 10 / 10 == m);
    lemma_decimal_len(m, 2);
    let text = decimal(n, 4);
    assert(text[0] == decimal(m, 2)[0] && text[1] == decimal(m, 2)[1]);
    assert(text[2] == digit(n / 10 % 10) && text[3] == digit(n % 10));
}

/// What the ISO 8601 form says, digit by digit, in years from 0 to 9999: `YYYY-MM-DDTHH:MM:SS`, where
/// the date is one of the calendar, the time lies before midnight, and both together are the moment.
pub proof fn lemma_iso_form(seconds: int)
    requires
        0 <= civil_date(seconds / 86_400).year <= 9999,
    ensures
        ({
            let text = iso_text(seconds);
            let year = 1000 * count_of(text[0]) + 100 * count_of(text[1]) + 10 * count_of(text[2])
                + count_of(text[3]);
            let month = 10 * count_of(text[5]) + count_of(text[6]);
            let day = 10 * count_of(text[8]) + count_of(text[9]);
            let hours = 10 * count_of(text[11]) + count_of(text[12]);
            let minutes = 10 * count_of(text[14]) + count_of(text[15]);
            let rest = 10 * count_of(text[17]) + count_of(text[18]);
            &&& text.len() == 19
            &&& text[4] == '-' && text[7] == '-' && text[10] == 'T' && text[13] == ':' && text[16]
                == ':'
            &&& 0 <= count_of(text[0]) <= 9 && 0 <= count_of(text[1]) <= 9
            &&& 0 <= count_of(text[2]) <= 9 && 0 <= count_of(text[3]) <= 9
            &&& 0 <= count_of(text[5]) <= 9 && 0 <= count_of(text[6]) <= 9
            &&& 0 <= count_of(text[8]) <= 9 && 0 <= count_of(text[9]) <= 9
            &&& 0 <= count_of(text[11]) <= 9 && 0 <= count_of(text[12]) <= 9
            &&& 0 <= count_of(text[14]) <= 9 && 0 <= count_of(text[15]) <= 9
            &&& 0 <= count_of(text[17]) <= 9 && 0 <= count_of(text[18]) <= 9
            &&& 1 <= month <= 12 && 1 <= day <= days_in_month(year, month)
            &&& 0 <= hours < 24 && 0 <= minutes < 60 && 0 <= rest < 60
            &&& seconds == 86_400 * (Civil { year, month, day }).day_number() + 3600 * hours + 60
                * minutes + rest
        }),
{
    let text = iso_text(seconds);
    let date = civil_date(seconds / 86_400);
    let time = seconds % 86_400;
    lemma_civil_date(seconds / 86_400);
    lemma_iso_parts(seconds);
    lemma_year_digits(date.year);
    lemma_decimal_digits(date.month);
    lemma_decimal_digits(date.day);
    lemma_decimal_digits(time / 3600);
    lemma_decimal_digits(time / 60 % 60);
    lemma_decimal_digits(time % 60);
    assert(text[0] == text.subrange(0, 4)[0] && text[1] == text.subrange(0, 4)[1]);
    assert(text[2] == text.subrange(0, 4)[2] && text[3] == text.subrange(0, 4)[3]);
    assert(text[5] == text.subrange(5, 7)[0] && text[6] == text.subrange(5, 7)[1]);
    assert(text[8] == text.subrange(8, 10)[0] && text[9] == text.subrange(8, 10)[1]);
    assert(text[11] == text.subrange(11, 13)[0] && text[12] == text.subrange(11, 13)[1]);
    assert(text[14] == text.subrange(14, 16)[0] && text[15] == text.subrange(14, 16)[1]);
    assert(text[17] == text.subrange(17, 19)[0] && text[18] == text.subrange(17, 19)[1]);
    let year = 1000 * count_of(text[0]) + 100 * count_of(text[1]) + 10 * count_of(text[2])
        + count_of(text[3]);
    let month = 10 * count_of(text[5]) + count_of(text[6]);
    let day = 10 * count_of(text[8]) + count_of(text[9]);
    assert(year == date.year && month == date.month && day == date.day);
    assert(date == Civil { year, month, day });
}

} // verus!
