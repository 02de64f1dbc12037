//! Calendar dates. The library holds a date as year, month and day; the
//! calendar computations that the worklog needs (parsing and formatting date
//! text, ISO weeks) are chrono's, reached through the trusted items below.
use chrono::{Datelike, NaiveDate};
use vstd::prelude::*;
use vstd::arithmetic::div_mod::{lemma_fundamental_div_mod, lemma_fundamental_div_mod_converse};

use crate::text::{chars_of, decimal, string_of, trim_chars, trim_spec, zero_pad};

verus! {

broadcast use vstd::string::group_string_axioms;

// ---------------------------------------------------------------------------
// The proleptic Gregorian calendar
// ---------------------------------------------------------------------------

/// Leap years of the proleptic Gregorian calendar (year 0 is 1 BCE).
pub open spec fn is_leap_year(y: int) -> bool {
    y % 4 == 0 && (y % 100 != 0 || y % 400 == 0)
}

/// The number of days in month `m` of year `y`.
pub open spec fn days_in_month(y: int, m: int) -> int {
    if m == 2 {
        if is_leap_year(y) {
            29
        } else {
            28
        }
    } else if m == 4 || m == 6 || m == 9 || m == 11 {
        30
    } else {
        31
    }
}

/// A calendar day that exists, in the range of years that chrono represents
/// (`-262143 ..= 262142`).
pub open spec fn valid_ymd(y: int, m: int, d: int) -> bool {
    &&& -262143 <= y <= 262142
    &&& 1 <= m <= 12
    &&& 1 <= d <= days_in_month(y, m)
}

/// Year, month and day as a triple.
pub type Ymd = (i32, u32, u32);

/// `valid_ymd` on a triple.
pub open spec fn valid_triple(t: Ymd) -> bool {
    valid_ymd(t.0 as int, t.1 as int, t.2 as int)
}

/// `a` is a strictly earlier day than `b`.
pub open spec fn ymd_lt(a: Ymd, b: Ymd) -> bool {
    ||| a.0 < b.0
    ||| (a.0 == b.0 && a.1 < b.1)
    ||| (a.0 == b.0 && a.1 == b.1 && a.2 < b.2)
}

/// A calendar date of the proleptic Gregorian calendar, as year, month and day,
/// within the years that chrono represents.
#[derive(Clone, Copy, Debug, PartialEq, Eq, Hash, Structural)]
pub struct Date {
    year: i32,
    month: u32,
    day: u32,
}

impl View for Date {
    type V = Ymd;

    closed spec fn view(&self) -> Ymd {
        (self.year, self.month, self.day)
    }
}

/// The date whose year, month and day are `t`.
pub closed spec fn date_of(t: Ymd) -> Date {
    Date { year: t.0, month: t.1, day: t.2 }
}

/// `date_of` gives back the triple it was made from.
pub broadcast proof fn lemma_date_of_view(t: Ymd)
    ensures
        #[trigger] date_of(t)@ == t,
{
}

/// Two dates with the same year, month and day are the same date.
pub broadcast proof fn lemma_date_view_injective(a: Date, b: Date)
    ensures
        #![trigger a@, b@]
        a@ == b@ ==> a == b,
{
}

/// The facts about `Date` that the rest of the library uses.
pub broadcast group group_date {
    lemma_date_of_view,
    lemma_date_view_injective,
}

impl Date {
    /// Every date exists in the calendar.
    #[verifier::type_invariant]
    pub open spec fn inv(self) -> bool {
        valid_triple(self@)
    }

    /// The date `year-month-day`, if that day exists.
    pub fn from_ymd_opt(year: i32, month: u32, day: u32) -> (r: Option<Date>)
        ensures
            r is Some <==> valid_ymd(year as int, month as int, day as int),
            r matches Some(d) ==> d@ == (year, month, day),
    {
        if year < -262143 || year > 262142 || month < 1 || month > 12 || day < 1 {
            return None;
        }
        let shifted: i64 = year as i64 + 400000;
        let leap = shifted % 4 == 0 && (shifted % 100 != 0 || shifted % 400 == 0);
        assert(leap == is_leap_year(year as int));
        let last: u32 = if month == 2 {
            if leap {
                29
            } else {
                28
            }
        } else if month == 4 || month == 6 || month == 9 || month == 11 {
            30
        } else {
            31
        };
        if day > last {
            return None;
        }
        Some(Date { year, month, day })
    }

    /// The year.
    pub fn year(&self) -> (r: i32)
        ensures
            r == self@.0,
    {
        self.year
    }

    /// The month, `1 ..= 12`.
    pub fn month(&self) -> (r: u32)
        ensures
            r == self@.1,
    {
        self.month
    }

    /// The day of the month, `1 ..= 31`.
    pub fn day(&self) -> (r: u32)
        ensures
            r == self@.2,
    {
        self.day
    }

    /// The date as a triple, with the fact that it exists.
    pub fn ymd(&self) -> (r: Ymd)
        ensures
            r == self@,
            valid_triple(r),
    {
        proof {
            use_type_invariant(self);
        }
        (self.year, self.month, self.day)
    }

    /// Makes a date from a triple that exists in the calendar.
    pub fn from_valid(t: Ymd) -> (d: Date)
        requires
            valid_triple(t),
        ensures
            d@ == t,
    {
        Date { year: t.0, month: t.1, day: t.2 }
    }

    /// Whether `self` is a strictly earlier day than `other`.
    pub fn is_before(&self, other: &Date) -> (r: bool)
        ensures
            r == ymd_lt(self@, other@),
    {
        self.year < other.year || (self.year == other.year && self.month < other.month) || (
        self.year == other.year && self.month == other.month && self.day < other.day)
    }

    /// The date in the worklog's format, `%b %-d, %Y` (e.g. `Mar 9, 2026`).
    pub fn short_text(&self) -> (s: String)
        ensures
            s@ == short_date_text(self@),
            parsed_date(s@, short_format()) == Some(self@),
    {
        let t = self.ymd();
        let fmt = "%b %-d, %Y";
        proof {
            reveal_strlit("%b %-d, %Y");
            assert(fmt@ =~= short_format());
        }
        chrono_format(t, fmt)
    }

    /// The date as `NaiveDate`'s `to_string` writes it, `%Y-%m-%d`
    /// (e.g. `2026-03-09`); this is the form in which dates are stored.
    pub fn iso_text(&self) -> (s: String)
        ensures
            s@ == iso_date_text(self@),
            parsed_date(s@, iso_format()) == Some(self@),
    {
        let t = self.ymd();
        chrono_display(t)
    }

    /// The ISO week number and the ISO year of the week that holds this date.
    pub fn iso_week(&self) -> (r: (u32, i32))
        ensures
            r == iso_week_of(self@.0, self@.1, self@.2),
            1 <= r.0 <= 53,
    {
        let t = self.ymd();
        proof {
            lemma_iso_year_holds_thursday(t);
        }
        chrono_iso_week(t)
    }
}

// ---------------------------------------------------------------------------
// Date text
// ---------------------------------------------------------------------------

/// The abbreviated English month name of month `m`.
pub open spec fn month_abbrev(m: int) -> Seq<char> {
    if m == 1 {
        seq!['J', 'a', 'n']
    } else if m == 2 {
        seq!['F', 'e', 'b']
    } else if m == 3 {
        seq!['M', 'a', 'r']
    } else if m == 4 {
        seq!['A', 'p', 'r']
    } else if m == 5 {
        seq!['M', 'a', 'y']
    } else if m == 6 {
        seq!['J', 'u', 'n']
    } else if m == 7 {
        seq!['J', 'u', 'l']
    } else if m == 8 {
        seq!['A', 'u', 'g']
    } else if m == 9 {
        seq!['S', 'e', 'p']
    } else if m == 10 {
        seq!['O', 'c', 't']
    } else if m == 11 {
        seq!['N', 'o', 'v']
    } else {
        seq!['D', 'e', 'c']
    }
}

/// How chrono writes a year for `%Y` and in `%Y-%m-%d`: four digits, zero
/// padded, for `0 ..= 9999`; otherwise a sign and at least four digits.
pub open spec fn year_text(y: int) -> Seq<char> {
    if 0 <= y <= 9999 {
        zero_pad(decimal(y as nat), 4)
    } else if y < 0 {
        seq!['-'] + zero_pad(decimal((-y) as nat), 4)
    } else {
        seq!['+'] + zero_pad(decimal(y as nat), 4)
    }
}

/// The format string of worklog date lines.
pub open spec fn short_format() -> Seq<char> {
    seq!['%', 'b', ' ', '%', '-', 'd', ',', ' ', '%', 'Y']
}

/// The format string of stored dates.
pub open spec fn iso_format() -> Seq<char> {
    seq!['%', 'Y', '-', '%', 'm', '-', '%', 'd']
}

/// A date written with `short_format`, e.g. `Mar 9, 2026`.
pub open spec fn short_date_text(t: Ymd) -> Seq<char> {
    month_abbrev(t.1 as int) + seq![' '] + decimal(t.2 as nat) + seq![',', ' '] + year_text(
        t.0 as int,
    )
}

/// A date written with `iso_format`, e.g. `2026-03-09`.
pub open spec fn iso_date_text(t: Ymd) -> Seq<char> {
    year_text(t.0 as int) + seq!['-'] + zero_pad(decimal(t.1 as nat), 2) + seq!['-'] + zero_pad(
        decimal(t.2 as nat),
        2,
    )
}

/// Floor division by `k` steps up by one exactly where `k` divides the next
/// number.
proof fn lemma_div_step(x: int, k: int)
    requires
        k > 0,
    ensures
        (x + 1) / k == x / k + (if (x + 1) % k == 0 { 1int } else { 0int }),
        0 <= x % k < k,
{
    let q = x / k;
    let r = x % k;
    lemma_fundamental_div_mod(x, k);
    lemma_mod_bound(x, k);
    assert(k * q == q * k) by (nonlinear_arith);
    if r + 1 < k {
        lemma_fundamental_div_mod_converse(x + 1, k, q, r + 1);
    } else {
        assert((q + 1) * k == q * k + k) by (nonlinear_arith);
        lemma_fundamental_div_mod_converse(x + 1, k, q + 1, 0);
    }
}

/// The remainder of `x` by `k` lies in `0 .. k`.
proof fn lemma_mod_bound(x: int, k: int)
    requires
        k > 0,
    ensures
        0 <= x % k < k,
{
    vstd::arithmetic::div_mod::lemma_mod_bound(x, k);
}

/// Adding `k` keeps the remainder by `k`.
proof fn lemma_mod_shift(x: int, k: int)
    requires
        k > 0,
    ensures
        (x + k) % k == x % k,
{
    let q = x / k;
    let r = x % k;
    lemma_fundamental_div_mod(x, k);
    lemma_mod_bound(x, k);
    assert(k * q == q * k) by (nonlinear_arith);
    assert((q + 1) * k == q * k + k) by (nonlinear_arith);
    lemma_fundamental_div_mod_converse(x + k, k, q + 1, r);
}

/// A multiple of `a * b` is a multiple of `b`.
proof fn lemma_mod_multiple(y: int, a: int, b: int)
    requires
        a > 0,
        b > 0,
        y % (a * b) == 0,
    ensures
        y % b == 0,
{
    let q = y / (a * b);
    assert(a * b > 0) by (nonlinear_arith)
        requires
            a > 0,
            b > 0,
    ;
    lemma_fundamental_div_mod(y, a * b);
    assert(y == (q * a) * b) by (nonlinear_arith)
        requires
            y == (a * b) * q + 0,
    ;
    lemma_fundamental_div_mod_converse(y, b, q * a, 0);
}

/// A year has 366 days when it is a leap year and 365 otherwise.
pub proof fn lemma_year_length(y: int)
    ensures
        days_before_year(y + 1) - days_before_year(y) == if is_leap_year(y) {
            366int
        } else {
            365int
        },
{
    lemma_div_step(y + 3, 4);
    lemma_div_step(y + 99, 100);
    lemma_div_step(y + 399, 400);
    lemma_mod_shift(y, 4);
    lemma_mod_shift(y, 100);
    lemma_mod_shift(y, 400);
    if y % 100 == 0 {
        lemma_mod_multiple(y, 25, 4);
    }
    if y % 400 == 0 {
        lemma_mod_multiple(y, 4, 100);
    }
}

/// Years before `y2` take at least 365 days each.
proof fn lemma_years_apart(y1: int, y2: int)
    requires
        y1 <= y2,
    ensures
        days_before_year(y1) + 365 * (y2 - y1) <= days_before_year(y2),
    decreases y2 - y1,
{
    if y1 < y2 {
        lemma_years_apart(y1, y2 - 1);
        lemma_year_length(y2 - 1);
    }
}

/// The day number of a valid date lies within its year; a later date of the
/// same year has a larger day number.
proof fn lemma_day_in_year(t: Ymd)
    requires
        valid_triple(t),
    ensures
        days_before_year(t.0 as int) <= day_number(t.0 as int, t.1 as int, t.2 as int) < days_before_year(
            t.0 + 1,
        ),
{
    lemma_year_length(t.0 as int);
}

/// Day numbers follow the order of dates.
pub proof fn lemma_day_number_ordered(a: Ymd, b: Ymd)
    requires
        valid_triple(a),
        valid_triple(b),
        ymd_lt(a, b),
    ensures
        day_number(a.0 as int, a.1 as int, a.2 as int) < day_number(b.0 as int, b.1 as int, b.2 as int),
{
    lemma_day_in_year(a);
    lemma_day_in_year(b);
    if a.0 < b.0 {
        lemma_years_apart(a.0 + 1, b.0 as int);
    } else if a.1 < b.1 {
        assert(days_before_month(a.0 as int, a.1 as int) + days_in_month(a.0 as int, a.1 as int)
            <= days_before_month(b.0 as int, b.1 as int));
    }
}

/// The Thursday of a day's week lies within three days of it, and moves
/// forward with the day.
proof fn lemma_week_thursday(z1: int, z2: int)
    requires
        z1 <= z2,
    ensures
        z1 - 3 <= week_thursday(z1) <= z1 + 3,
        week_thursday(z1) <= week_thursday(z2),
{
    lemma_fundamental_div_mod(z1 + 5, 7);
    lemma_fundamental_div_mod(z2 + 5, 7);
    lemma_mod_bound(z1 + 5, 7);
    lemma_mod_bound(z2 + 5, 7);
    vstd::arithmetic::div_mod::lemma_div_is_ordered(z1 + 5, z2 + 5, 7);
}

/// The ISO year of a valid date is the year that holds the Thursday of its
/// week, and its week number is counted from the start of that year.
proof fn lemma_iso_year_holds_thursday(t: Ymd)
    requires
        valid_triple(t),
    ensures
        ({
            let z = day_number(t.0 as int, t.1 as int, t.2 as int);
            let th = week_thursday(z);
            let iy = iso_week_of(t.0, t.1, t.2).1 as int;
            &&& t.0 - 1 <= iy <= t.0 + 1
            &&& days_before_year(iy) <= th < days_before_year(iy + 1)
            &&& iso_week_of(t.0, t.1, t.2).0 as int == (th - days_before_year(iy)) / 7 + 1
            &&& 1 <= (th - days_before_year(iy)) / 7 + 1 <= 53
        }),
{
    let y = t.0 as int;
    let z = day_number(y, t.1 as int, t.2 as int);
    let th = week_thursday(z);
    lemma_day_in_year(t);
    lemma_week_thursday(z, z);
    lemma_year_length(y - 1);
    lemma_year_length(y);
    lemma_year_length(y + 1);
    let iy = if th < days_before_year(y) {
        y - 1
    } else if th >= days_before_year(y + 1) {
        y + 1
    } else {
        y
    };
    lemma_year_length(iy);
    let off = th - days_before_year(iy);
    vstd::arithmetic::div_mod::lemma_div_is_ordered(0, off, 7);
    vstd::arithmetic::div_mod::lemma_div_is_ordered(off, 365, 7);
    assert(0int / 7 == 0);
    assert(365int / 7 == 52);
}

/// ISO weeks never go back as the date advances.
pub proof fn lemma_iso_week_monotone(a: Ymd, b: Ymd)
    requires
        valid_triple(a),
        valid_triple(b),
        !ymd_lt(b, a),
    ensures
        week_key_le(iso_week_of(a.0, a.1, a.2), iso_week_of(b.0, b.1, b.2)),
{
    if a == b {
        return;
    }
    assert(ymd_lt(a, b));
    let z1 = day_number(a.0 as int, a.1 as int, a.2 as int);
    let z2 = day_number(b.0 as int, b.1 as int, b.2 as int);
    lemma_day_number_ordered(a, b);
    lemma_week_thursday(z1, z2);
    lemma_iso_year_holds_thursday(a);
    lemma_iso_year_holds_thursday(b);
    let ka = iso_week_of(a.0, a.1, a.2);
    let kb = iso_week_of(b.0, b.1, b.2);
    let ya = ka.1 as int;
    let yb = kb.1 as int;
    let tha = week_thursday(z1);
    let thb = week_thursday(z2);
    if ya > yb {
        lemma_years_apart(yb + 1, ya);
        assert(false);
    }
    if ya == yb {
        vstd::arithmetic::div_mod::lemma_div_is_ordered(
            tha - days_before_year(ya),
            thb - days_before_year(ya),
            7,
        );
    }
}

/// The date that chrono's `NaiveDate::parse_from_str(text, format)` yields, if any.
pub uninterp spec fn parsed_date(text: Seq<char>, format: Seq<char>) -> Option<Ymd>;

/// The ISO 8601 week of a date: its number and its ISO year. Weeks run from
/// Monday to Sunday; a week belongs to the year that holds its Thursday, and
/// week 1 of a year is the week that holds its first Thursday.
pub open spec fn iso_week_of(year: i32, month: u32, day: u32) -> (u32, i32) {
    let y = year as int;
    let th = week_thursday(day_number(y, month as int, day as int));
    let iy = if th < days_before_year(y) {
        y - 1
    } else if th >= days_before_year(y + 1) {
        y + 1
    } else {
        y
    };
    (((th - days_before_year(iy)) / 7 + 1) as u32, iy as i32)
}

/// The number of days from 1 January of year 0 to 1 January of year `y`
/// (negative before year 0).
pub open spec fn days_before_year(y: int) -> int {
    365 * y + (y + 3) / 4 - (y + 99) / 100 + (y + 399) / 400
}

/// The number of days in year `y` before month `m`.
pub open spec fn days_before_month(y: int, m: int) -> int {
    let base: int = if m == 1 {
        0
    } else if m == 2 {
        31
    } else if m == 3 {
        59
    } else if m == 4 {
        90
    } else if m == 5 {
        120
    } else if m == 6 {
        151
    } else if m == 7 {
        181
    } else if m == 8 {
        212
    } else if m == 9 {
        243
    } else if m == 10 {
        273
    } else if m == 11 {
        304
    } else {
        334
    };
    if m > 2 && is_leap_year(y) {
        base + 1
    } else {
        base
    }
}

/// The number of a day, counted from 1 January of year 0.
pub open spec fn day_number(y: int, m: int, d: int) -> int {
    days_before_year(y) + days_before_month(y, m) + d - 1
}

/// The day of the week of day number `z`, Monday 0 to Sunday 6 (1 January of
/// year 0 was a Saturday).
pub open spec fn weekday(z: int) -> int {
    (z + 5) % 7
}

/// The Thursday of the Monday-to-Sunday week of day number `z`.
pub open spec fn week_thursday(z: int) -> int {
    z - weekday(z) + 3
}

/// `a` is the same ISO week as `b` or an earlier one: by ISO year, then week.
pub open spec fn week_key_le(a: (u32, i32), b: (u32, i32)) -> bool {
    a.1 < b.1 || (a.1 == b.1 && a.0 <= b.0)
}

/// Calls `NaiveDate::format(fmt).to_string()` on the date `t`.
/// Trusted: chrono writes `%b` as the English month abbreviation, `%-d` as the
/// unpadded day and `%Y` as described by `year_text` (see `write_year` in
/// chrono's `format/formatting.rs`), and `parse_from_str` with the same format
/// reads that text back as the same date (chrono's `format/parse.rs`).
/// `from_ymd_opt` succeeds here because `valid_ymd` is exactly its condition.
#[verifier::external_body]
fn chrono_format(t: Ymd, fmt: &str) -> (s: String)
    requires
        valid_triple(t),
        fmt@ == short_format(),
    ensures
        s@ == short_date_text(t),
        parsed_date(s@, fmt@) == Some(t),
{
    let d = NaiveDate::from_ymd_opt(t.0, t.1, t.2).unwrap();
    d.format(fmt).to_string()
}

/// Calls `NaiveDate::to_string` (its `Display`) on the date `t`.
/// Trusted: chrono writes the year as described by `year_text`, then `-`, the
/// two-digit month, `-` and the two-digit day (`impl Debug for NaiveDate`), and
/// documents that `%Y-%m-%d`, the format of `Display`, parses back to the date.
#[verifier::external_body]
fn chrono_display(t: Ymd) -> (s: String)
    requires
        valid_triple(t),
    ensures
        s@ == iso_date_text(t),
        parsed_date(s@, iso_format()) == Some(t),
{
    NaiveDate::from_ymd_opt(t.0, t.1, t.2).unwrap().to_string()
}

/// Calls `NaiveDate::parse_from_str(text, fmt)`.
/// Trusted: the result is `parsed_date(text, fmt)`, and a parsed date exists in
/// the calendar (every `NaiveDate` does).
#[verifier::external_body]
fn chrono_parse(text: &str, fmt: &str) -> (r: Option<Ymd>)
    ensures
        r == parsed_date(text@, fmt@),
        r matches Some(t) ==> valid_triple(t),
{
    match NaiveDate::parse_from_str(text, fmt) {
        Ok(d) => Some((d.year(), d.month(), d.day())),
        Err(_) => None,
    }
}

/// Calls `NaiveDate::iso_week` on the date `t` and reads its week and year.
/// Trusted: the result is the ISO 8601 week of the date, `iso_week_of(t)`
/// (chrono documents `iso_week` as the ISO week).
#[verifier::external_body]
fn chrono_iso_week(t: Ymd) -> (r: (u32, i32))
    requires
        valid_triple(t),
    ensures
        r == iso_week_of(t.0, t.1, t.2),
{
    let w = NaiveDate::from_ymd_opt(t.0, t.1, t.2).unwrap().iso_week();
    (w.week(), w.year())
}

/// Parses `text` with chrono and `fmt`.
pub fn parse_date(text: &Vec<char>, fmt: &str) -> (r: Option<Date>)
    ensures
        r matches Some(d) ==> parsed_date(text@, fmt@) == Some(d@),
        r is None ==> parsed_date(text@, fmt@) is None,
{
    let s = string_of(text);
    match chrono_parse(s.as_str(), fmt) {
        Some(t) => Some(Date::from_valid(t)),
        None => None,
    }
}

/// The date that a date field of the entry form holds: the text, trimmed, in
/// the worklog's `%b %-d, %Y` format.
pub open spec fn form_date_spec(s: Seq<char>) -> Option<Ymd> {
    parsed_date(trim_spec(s), short_format())
}

/// Parses the date string that comes from the HTML form (e.g. `Mar 9, 2026`),
/// ignoring surrounding whitespace.
pub fn parse_form_date(s: &str) -> (r: Option<Date>)
    ensures
        r matches Some(d) ==> form_date_spec(s@) == Some(d@),
        r is None ==> form_date_spec(s@) is None,
{
    let chars = chars_of(s);
    let t = trim_chars(&chars);
    let fmt = "%b %-d, %Y";
    proof {
        reveal_strlit("%b %-d, %Y");
        assert(fmt@ =~= short_format());
    }
    parse_date(&t, fmt)
}

} // verus!
