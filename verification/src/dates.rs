//! Post dates: calendar dates at midnight UTC, read from post filenames and
//! written out through `chrono`.

use vstd::prelude::*;
use vstd::utf8::{decode_utf8, encode_utf8_decode_utf8, encode_utf8_valid_utf8,
    is_char_boundary_iff_not_is_continuation_byte};
use vstd::string::StringSliceAdditionalSpecFns;
use chrono::{Datelike, NaiveDate};
use crate::error::SiteError;

verus! {

broadcast use vstd::string::group_string_axioms;

/// The earliest year that `chrono` dates cover.
pub open spec fn min_year() -> int {
    -262143
}

/// The latest year that `chrono` dates cover.
pub open spec fn max_year() -> int {
    262142
}

/// Leap years of the proleptic Gregorian calendar.
pub open spec fn is_leap_year(year: int) -> bool {
    (year % 4 == 0 && year % 100 != 0) || year % 400 == 0
}

/// The number of days of `month` in `year`.
pub open spec fn days_in_month(year: int, month: int) -> int {
    if month == 2 {
        if is_leap_year(year) {
            29
        } else {
            28
        }
    } else if month == 4 || month == 6 || month == 9 || month == 11 {
        30
    } else {
        31
    }
}

/// A date of the proleptic Gregorian calendar within `chrono`'s range.
pub open spec fn is_valid_date(year: int, month: int, day: int) -> bool {
    &&& min_year() <= year <= max_year()
    &&& 1 <= month <= 12
    &&& 1 <= day <= days_in_month(year, month)
}

/// The date a post was published, at midnight UTC.
#[derive(Clone, Copy, Debug, PartialEq, Eq, Structural)]
pub struct PostDate {
    year: i32,
    month: u32,
    day: u32,
}

impl View for PostDate {
    type V = (int, int, int);

    /// Year, month and day.
    closed spec fn view(&self) -> (int, int, int) {
        (self.year as int, self.month as int, self.day as int)
    }
}

impl PostDate {
    #[verifier::type_invariant]
    spec fn is_valid(self) -> bool {
        is_valid_date(self.year as int, self.month as int, self.day as int)
    }

    /// The date with the given year, month and day, if the calendar has it.
    pub fn from_ymd(year: i32, month: u32, day: u32) -> (r: Option<PostDate>)
        ensures
            r is Some <==> is_valid_date(year as int, month as int, day as int),
            r matches Some(d) ==> d@ == (year as int, month as int, day as int),
    {
        if year < -262143 || year > 262142 || month < 1 || month > 12 || day < 1 {
            return None;
        }
        let leap = (year % 4 == 0 && year % 100 != 0) || year % 400 == 0;
        assert(leap == is_leap_year(year as int)) by (nonlinear_arith)
            requires
                leap == ((year % 4 == 0 && year % 100 != 0) || year % 400 == 0),
        {
        }
        let days: u32 = if month == 2 {
            if leap {
                29
            } else {
                28
            }
        } else if month == 4 || month == 6 || month == 9 || month == 11 {
            30
        } else {
            31
        };
        if day > days {
            return None;
        }
        Some(PostDate { year, month, day })
    }

    /// The year.
    pub fn year(&self) -> (y: i32)
        ensures
            y == self@.0,
    {
        self.year
    }

    /// The month, 1 to 12.
    pub fn month(&self) -> (m: u32)
        ensures
            m == self@.1,
    {
        self.month
    }

    /// The day of the month, from 1.
    pub fn day(&self) -> (d: u32)
        ensures
            d == self@.2,
    {
        self.day
    }

    /// The date as one number that orders dates as the calendar does.
    pub fn rank(&self) -> (r: i64)
        ensures
            r == date_rank(self@),
    {
        proof {
            use_type_invariant(self);
        }
        self.year as i64 * 10000 + self.month as i64 * 100 + self.day as i64
    }

    /// The date written with one of the two `chrono` format strings the site
    /// uses: `%Y-%m-%d` or `%B %e, %Y`.
    pub fn format(&self, format: &str) -> (s: String)
        requires
            is_date_format(format@),
        ensures
            format@ == "%Y-%m-%d"@ ==> s@ == iso_date_text(self@.0, self@.1, self@.2),
            format@ == "%B %e, %Y"@ ==> s@ == long_date_text(self@.0, self@.1, self@.2),
    {
        proof {
            use_type_invariant(self);
        }
        format_date(self.year, self.month, self.day, format)
    }

    /// The date at midnight UTC in RFC 2822 form.
    pub fn to_rfc2822(&self) -> (s: String)
        requires
            0 <= self@.0 <= 9999,
        ensures
            s@ == rfc2822_text(self@.0, self@.1, self@.2),
    {
        proof {
            use_type_invariant(self);
        }
        rfc2822_date(self.year, self.month, self.day)
    }
}

/// A date as one number: later dates have larger numbers, since months stay
/// below 100 and days below 100.
pub open spec fn date_rank(date: (int, int, int)) -> int {
    date.0 * 10000 + date.1 * 100 + date.2
}

/// Of two valid dates, the later one has the larger rank, and the same date the same rank.
pub proof fn rank_orders_dates(a: (int, int, int), b: (int, int, int))
    requires
        is_valid_date(a.0, a.1, a.2),
        is_valid_date(b.0, b.1, b.2),
    ensures
        date_rank(a) < date_rank(b) <==> (a.0 < b.0 || (a.0 == b.0 && (a.1 < b.1 || (a.1 == b.1
            && a.2 < b.2)))),
        date_rank(a) == date_rank(b) <==> a == b,
{
}

/// The decimal digit `n`.
pub open spec fn digit(n: int) -> char {
    (n + 48) as char
}

/// `n` in decimal.
pub open spec fn decimal(n: nat) -> Seq<char>
    decreases n,
{
    if n < 10 {
        seq![digit(n as int)]
    } else {
        decimal(n / 10).push(digit((n % 10) as int))
    }
}

/// `n` in decimal, with zeros in front to fill `width` characters.
pub open spec fn zero_padded(n: nat, width: nat) -> Seq<char> {
    let digits = decimal(n);
    if digits.len() >= width {
        digits
    } else {
        Seq::new((width - digits.len()) as nat, |i: int| '0') + digits
    }
}

/// How `%Y` writes a year: four digits or more, with a sign outside 0 to 9999.
pub open spec fn year_text(year: int) -> Seq<char> {
    if 0 <= year <= 9999 {
        zero_padded(year as nat, 4)
    } else if year < 0 {
        seq!['-'] + zero_padded((-year) as nat, 4)
    } else {
        seq!['+'] + zero_padded(year as nat, 4)
    }
}

/// The English name of a month.
pub open spec fn month_name(month: int) -> Seq<char> {
    if month == 1 {
        "January"@
    } else if month == 2 {
        "February"@
    } else if month == 3 {
        "March"@
    } else if month == 4 {
        "April"@
    } else if month == 5 {
        "May"@
    } else if month == 6 {
        "June"@
    } else if month == 7 {
        "July"@
    } else if month == 8 {
        "August"@
    } else if month == 9 {
        "September"@
    } else if month == 10 {
        "October"@
    } else if month == 11 {
        "November"@
    } else {
        "December"@
    }
}

/// How `%e` writes a day: two characters, a space in front of a single digit.
pub open spec fn space_padded_day(day: int) -> Seq<char> {
    if day < 10 {
        seq![' ', digit(day)]
    } else {
        decimal(day as nat)
    }
}

/// The date as `%Y-%m-%d` writes it.
pub open spec fn iso_date_text(year: int, month: int, day: int) -> Seq<char> {
    year_text(year) + seq!['-'] + zero_padded(month as nat, 2) + seq!['-'] + zero_padded(
        day as nat,
        2,
    )
}

/// The date as `%B %e, %Y` writes it.
pub open spec fn long_date_text(year: int, month: int, day: int) -> Seq<char> {
    month_name(month) + seq![' '] + space_padded_day(day) + seq![',', ' '] + year_text(year)
}

/// What `NaiveDate::parse_from_str` makes of a text with a format: the year,
/// month and day of the date it reads, if it reads one.
pub uninterp spec fn chrono_parsed_date(text: Seq<char>, format: Seq<char>) -> Option<
    (int, int, int),
>;

/// The English abbreviation of a weekday counted from Sunday.
pub open spec fn short_weekday(n: int) -> Seq<char> {
    if n == 0 {
        "Sun"@
    } else if n == 1 {
        "Mon"@
    } else if n == 2 {
        "Tue"@
    } else if n == 3 {
        "Wed"@
    } else if n == 4 {
        "Thu"@
    } else if n == 5 {
        "Fri"@
    } else {
        "Sat"@
    }
}

/// The English abbreviation of a month: its name's first three letters.
pub open spec fn short_month(month: int) -> Seq<char> {
    month_name(month).take(3)
}

/// How many of the years 0 to `year - 1` are leap years, for `year` from 0 on.
pub open spec fn leap_years_before(year: int) -> int {
    (year + 3) / 4 - (year + 99) / 100 + (year + 399) / 400
}

/// How many days the months of `year` before `month` have.
pub open spec fn days_before_month(year: int, month: int) -> int
    decreases month,
{
    if month <= 1 {
        0
    } else {
        days_before_month(year, month - 1) + days_in_month(year, month - 1)
    }
}

/// How many days lie between 1 January of year 0 and a date of year 0 or later.
pub open spec fn day_number(year: int, month: int, day: int) -> int {
    365 * year + leap_years_before(year) + days_before_month(year, month) + day - 1
}

/// The weekday of a date of year 0 or later, counted from Sunday: 1 January of
/// year 0 was a Saturday.
pub open spec fn weekday_from_sunday(year: int, month: int, day: int) -> int {
    (day_number(year, month, day) + 6) % 7
}

/// Midnight UTC of a date of the years 0 to 9999 as RFC 2822 writes it, as
/// `to_rfc2822` does: the weekday, the day without padding, the month, the
/// year in four digits, and `00:00:00 +0000`.
pub open spec fn rfc2822_text(year: int, month: int, day: int) -> Seq<char> {
    short_weekday(weekday_from_sunday(year, month, day)) + ", "@ + decimal(day as nat) + seq![' ']
        + short_month(month) + seq![' '] + zero_padded(year as nat, 4) + " 00:00:00 +0000"@
}

/// Reads a date with `NaiveDate::parse_from_str` and hands back its year, month
/// and day. The claims: the result is the named parse of the text with the
/// format, and a date it reads is a valid one (chrono holds no other).
#[verifier::external_body]
fn parse_date_text(text: &str, format: &str) -> (r: Option<(i32, u32, u32)>)
    ensures
        r matches Some((y, m, d)) ==> chrono_parsed_date(text@, format@) == Some(
            (y as int, m as int, d as int),
        ) && is_valid_date(y as int, m as int, d as int),
        r is None ==> chrono_parsed_date(text@, format@) is None,
{
    NaiveDate::parse_from_str(text, format).ok().map(|d| (d.year(), d.month(), d.day()))
}

/// The two format strings dates are written with; chrono writes both without
/// error (a format it cannot read makes `to_string` panic).
pub open spec fn is_date_format(format: Seq<char>) -> bool {
    format == "%Y-%m-%d"@ || format == "%B %e, %Y"@
}

/// Formats midnight UTC of a valid date with `DateTime::<Utc>::format`. The
/// claim: for the two formats it admits, the result is the text that chrono's
/// `%Y`, `%m`, `%d`, `%B` and `%e` give.
#[verifier::external_body]
fn format_date(year: i32, month: u32, day: u32, format: &str) -> (s: String)
    requires
        is_valid_date(year as int, month as int, day as int),
        is_date_format(format@),
    ensures
        format@ == "%Y-%m-%d"@ ==> s@ == iso_date_text(year as int, month as int, day as int),
        format@ == "%B %e, %Y"@ ==> s@ == long_date_text(year as int, month as int, day as int),
{
    let date = NaiveDate::from_ymd_opt(year, month, day).unwrap();
    date.and_hms_opt(0, 0, 0).unwrap().and_utc().format(format).to_string()
}

/// Writes midnight UTC of a valid date with `DateTime::<Utc>::to_rfc2822`,
/// which panics outside the years 0 to 9999. The claim: the result is the RFC
/// 2822 text that chrono's `write_rfc2822` writes for a UTC time.
#[verifier::external_body]
fn rfc2822_date(year: i32, month: u32, day: u32) -> (s: String)
    requires
        is_valid_date(year as int, month as int, day as int),
        0 <= year <= 9999,
    ensures
        s@ == rfc2822_text(year as int, month as int, day as int),
{
    let date = NaiveDate::from_ymd_opt(year, month, day).unwrap();
    date.and_hms_opt(0, 0, 0).unwrap().and_utc().to_rfc2822()
}

/// The message when a post filename does not start with ten bytes and a `-`.
pub open spec fn missing_date_message() -> Seq<char> {
    "post filename must start with YYYY-MM-DD-"@
}

/// The message when those ten bytes are not a date.
pub open spec fn invalid_date_message() -> Seq<char> {
    "post filename must start with a valid YYYY-MM-DD- date"@
}

/// The date a post slug names, read from its UTF-8 bytes: the first ten bytes,
/// followed by a `-`, parsed as `%Y-%m-%d`.
pub open spec fn slug_date(slug: Seq<u8>) -> Result<(int, int, int), Seq<char>> {
    if slug.len() > 10 && slug[10] == 45u8 {
        match chrono_parsed_date(decode_utf8(slug.take(10)), "%Y-%m-%d"@) {
            Some(ymd) => Ok(ymd),
            None => Err(invalid_date_message()),
        }
    } else {
        Err(missing_date_message())
    }
}

/// What a `post_date` result is, as plain values.
pub open spec fn date_result_view(r: Result<PostDate, SiteError>) -> Result<
    (int, int, int),
    Seq<char>,
> {
    match r {
        Ok(d) => Ok(d@),
        Err(e) => Err(e@),
    }
}

/// The publication date that a post slug starts with.
pub fn post_date(slug: &str) -> (r: Result<PostDate, SiteError>)
    ensures
        date_result_view(r) == slug_date(slug.spec_bytes()),
{
    let bytes = slug.as_bytes();
    if !(bytes.len() > 10 && bytes[10] == 45u8) {
        return Err(SiteError::new("post filename must start with YYYY-MM-DD-".to_owned()));
    }
    proof {
        encode_utf8_valid_utf8(slug@);
        is_char_boundary_iff_not_is_continuation_byte(slug.spec_bytes(), 10);
    }
    let (prefix, _) = slug.split_at(10);
    proof {
        encode_utf8_decode_utf8(prefix@);
        assert(prefix.spec_bytes() =~= slug.spec_bytes().take(10));
    }
    match parse_date_text(prefix, "%Y-%m-%d") {
        Some((year, month, day)) => {
            let date = PostDate { year, month, day };
            Ok(date)
        },
        None => Err(
            SiteError::new("post filename must start with a valid YYYY-MM-DD- date".to_owned()),
        ),
    }
}

} // verus!
