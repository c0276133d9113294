//! Normalizing free-form time expressions to calendar dates.
//!
//! Entities typed `Time` arrive with names like "tomorrow", "three days
//! from now", or a year-month-day spelled with Chinese numerals. A fast
//! rule-based parse anchors them to a reference date; names neither rule
//! nor (externally consulted) model can resolve are left untouched. The
//! calendar itself is modeled here as plain year/month/day values over the
//! Gregorian rules, with days counted from the first of January 1900 --
//! a Monday, which also anchors the weekday arithmetic.

use vstd::prelude::*;

use crate::attrs::AttrEntry;
use crate::attrs::Attributes;
use crate::text::chars_vec;
use crate::text::string_from_chars;
use crate::text::parse_digits;
use crate::text::digits_val;
use crate::text::all_digits;
use crate::text::spec_digit_char;
use crate::text::digit_char;
use crate::text::spec_trim;
use crate::text::trim_chars;

verus! {

/// At most this many unresolved names are sent to the external model per
/// batch.
pub const TIME_NORMALIZE_AI_MAX_CALLS: usize = 4;

/// A calendar date, year/month/day in the Gregorian calendar.
#[derive(PartialEq, Eq, Structural, Clone, Copy, Debug)]
pub struct Date {
    pub year: i64,
    pub month: i64,
    pub day: i64,
}

pub open spec fn spec_is_leap(y: int) -> bool {
    (y % 4 == 0 && y % 100 != 0) || y % 400 == 0
}

pub open spec fn spec_days_in_month(y: int, m: int) -> int {
    if m == 2 {
        if spec_is_leap(y) {
            29
        } else {
            28
        }
    } else if m == 4 || m == 6 || m == 9 || m == 11 {
        30
    } else {
        31
    }
}

/// The date domain of this module: from 1900 up to 2400, enough for the
/// parsed range (1900 to 2200) plus every relative offset the rules allow.
pub open spec fn date_valid(d: Date) -> bool {
    1900 <= d.year <= 2400 && 1 <= d.month <= 12 && 1 <= d.day <= spec_days_in_month(
        d.year as int,
        d.month as int,
    )
}

/// Days since the first of January 1900.
pub open spec fn date_num(d: Date) -> int
    decreases (if 1900 <= d.year { d.year - 1900 } else { 0 }), d.month, d.day,
{
    if d.year <= 1900 && d.month <= 1 && d.day <= 1 {
        0
    } else if d.day > 1 {
        date_num(Date { day: (d.day - 1) as i64, ..d }) + 1
    } else if d.month > 1 {
        date_num(
            Date {
                month: (d.month - 1) as i64,
                day: spec_days_in_month(d.year as int, d.month as int - 1) as i64,
                ..d
            },
        ) + 1
    } else {
        date_num(Date { year: (d.year - 1) as i64, month: 12, day: 31 }) + 1
    }
}

/// The day after; the successor on which the day count is built.
pub open spec fn spec_next_day(d: Date) -> Date {
    if d.day < spec_days_in_month(d.year as int, d.month as int) {
        Date { day: (d.day + 1) as i64, ..d }
    } else if d.month < 12 {
        Date { month: (d.month + 1) as i64, day: 1, ..d }
    } else {
        Date { year: (d.year + 1) as i64, month: 1, day: 1 }
    }
}

pub proof fn lemma_next_day_num(d: Date)
    requires
        date_valid(d),
    ensures
        date_num(spec_next_day(d)) == date_num(d) + 1,
        date_valid(spec_next_day(d)) || (d.year == 2400 && d.month == 12 && d.day == 31),
{
    let n = spec_next_day(d);
    if d.day < spec_days_in_month(d.year as int, d.month as int) {
        assert(date_num(n) == date_num(Date { day: (n.day - 1) as i64, ..n }) + 1);
    } else if d.month < 12 {
        assert(date_num(n) == date_num(
            Date {
                month: (n.month - 1) as i64,
                day: spec_days_in_month(n.year as int, n.month as int - 1) as i64,
                ..n
            },
        ) + 1);
    } else {
        assert(date_num(n) == date_num(Date { year: (n.year - 1) as i64, month: 12, day: 31 })
            + 1);
    }
}

/// The successor in executable form.
pub fn next_day(d: Date) -> (r: Date)
    requires
        date_valid(d),
        !(d.year == 2400 && d.month == 12 && d.day == 31),
    ensures
        r == spec_next_day(d),
        date_valid(r),
        date_num(r) == date_num(d) + 1,
{
    proof {
        lemma_next_day_num(d);
    }
    if d.day < days_in_month(d.year, d.month) {
        Date { day: d.day + 1, ..d }
    } else if d.month < 12 {
        Date { month: d.month + 1, day: 1, ..d }
    } else {
        Date { year: d.year + 1, month: 1, day: 1 }
    }
}

/// Whether a year is a leap year.
pub fn is_leap(y: i64) -> (r: bool)
    requires
        y >= 0,
    ensures
        r == spec_is_leap(y as int),
{
    (y % 4 == 0 && y % 100 != 0) || y % 400 == 0
}

/// The day count of a month.
pub fn days_in_month(y: i64, m: i64) -> (r: i64)
    requires
        y >= 0,
    ensures
        r == spec_days_in_month(y as int, m as int),
        28 <= r <= 31,
{
    if m == 2 {
        if is_leap(y) {
            29
        } else {
            28
        }
    } else if m == 4 || m == 6 || m == 9 || m == 11 {
        30
    } else {
        31
    }
}

/// Whether year, month and day make a date of the supported domain.
pub fn make_date(y: i64, m: i64, d: i64) -> (r: Option<Date>)
    ensures
        match r {
            Some(dt) => dt == (Date { year: y, month: m, day: d }) && date_valid(dt),
            None => !date_valid(Date { year: y, month: m, day: d }),
        },
{
    if 1900 <= y && y <= 2400 && 1 <= m && m <= 12 && 1 <= d && d <= days_in_month(y, m) {
        Some(Date { year: y, month: m, day: d })
    } else {
        None
    }
}

/// The date `n` days later.
pub open spec fn spec_add_days(d: Date, n: int) -> Date
    decreases n,
{
    if n <= 0 {
        d
    } else {
        spec_add_days(spec_next_day(d), n - 1)
    }
}

/// Add up to a year of days; the domain has room above the parsed range.
pub fn add_days(d: Date, n: u64) -> (r: Date)
    requires
        date_valid(d),
        d.year <= 2300,
        n <= 366,
    ensures
        r == spec_add_days(d, n as int),
        date_valid(r),
        date_num(r) == date_num(d) + n,
{
    let mut cur = d;
    let mut left = n;
    while left > 0
        invariant
            date_valid(d),
            d.year <= 2300,
            date_valid(cur),
            left <= n <= 366,
            date_num(cur) == date_num(d) + (n - left),
            spec_add_days(cur, left as int) == spec_add_days(d, n as int),
        decreases left,
    {
        proof {
            lemma_date_num_upper(d);
            if cur.year == 2400 && cur.month == 12 && cur.day == 31 {
                lemma_date_num_lower(cur);
                assert(date_num(cur) >= 365 * 500);
                assert(date_num(d) <= 366 * 400 + 371);
                assert(false);
            }
        }
        cur = next_day(cur);
        left = left - 1;
    }
    cur
}

/// The day count never falls behind the calendar year.
pub proof fn lemma_date_num_lower(d: Date)
    requires
        date_valid(d),
    ensures
        date_num(d) >= 365 * (d.year - 1900),
        date_num(d) >= 0,
{
    lemma_year_ge(d.year as int);
    lemma_month_ge(d.year as int, d.month as int);
    lemma_day_offset(d);
}

/// The day count never outruns the calendar year by more than a year.
pub proof fn lemma_date_num_upper(d: Date)
    requires
        date_valid(d),
    ensures
        date_num(d) <= 366 * (d.year - 1900) + 371,
{
    lemma_year_le(d.year as int);
    lemma_month_le(d.year as int, d.month as int);
    lemma_day_offset(d);
}

proof fn lemma_year_ge(y: int)
    requires
        1900 <= y <= 2400,
    ensures
        date_num(Date { year: y as i64, month: 1, day: 1 }) >= 365 * (y - 1900),
    decreases y,
{
    if y > 1900 {
        lemma_year_ge(y - 1);
        lemma_year_step(y - 1);
    }
}

proof fn lemma_year_le(y: int)
    requires
        1900 <= y <= 2400,
    ensures
        date_num(Date { year: y as i64, month: 1, day: 1 }) <= 366 * (y - 1900),
    decreases y,
{
    if y > 1900 {
        lemma_year_le(y - 1);
        lemma_year_step(y - 1);
    }
}

proof fn lemma_month_ge(y: int, m: int)
    requires
        1900 <= y <= 2400,
        1 <= m <= 12,
    ensures
        date_num(Date { year: y as i64, month: m as i64, day: 1 }) >= date_num(
            Date { year: y as i64, month: 1, day: 1 },
        ),
    decreases m,
{
    if m > 1 {
        lemma_month_ge(y, m - 1);
        lemma_month_step(y, m - 1);
    }
}

proof fn lemma_month_le(y: int, m: int)
    requires
        1900 <= y <= 2400,
        1 <= m <= 12,
    ensures
        date_num(Date { year: y as i64, month: m as i64, day: 1 }) <= date_num(
            Date { year: y as i64, month: 1, day: 1 },
        ) + 31 * (m - 1),
    decreases m,
{
    if m > 1 {
        lemma_month_le(y, m - 1);
        lemma_month_step(y, m - 1);
    }
}

/// Weekday of a date: zero for Monday through six for Sunday, anchored on
/// the first of January 1900 having been a Monday.
pub open spec fn spec_weekday(d: Date) -> int {
    date_num(d) % 7
}

/// Count the days from the epoch executably: whole years, then whole
/// months, then the day of month.
pub fn date_num_exec(d: Date) -> (r: u64)
    requires
        date_valid(d),
    ensures
        r as int == date_num(d),
{
    let mut total: u64 = 0;
    let mut y: i64 = 1900;
    while y < d.year
        invariant
            date_valid(d),
            1900 <= y <= d.year,
            total as int == date_num(Date { year: y, month: 1, day: 1 }),
            total <= 366 * (y - 1900),
        decreases d.year - y,
    {
        proof {
            lemma_year_step(y as int);
        }
        let ylen: u64 = if is_leap(y) {
            366
        } else {
            365
        };
        total = total + ylen;
        y = y + 1;
    }
    let mut m: i64 = 1;
    while m < d.month
        invariant
            date_valid(d),
            y == d.year,
            1 <= m <= d.month,
            total as int == date_num(Date { year: d.year, month: m, day: 1 }),
            total <= 366 * (d.year - 1900) + 31 * m,
        decreases d.month - m,
    {
        proof {
            lemma_month_step(d.year as int, m as int);
        }
        total = total + (days_in_month(d.year, m) as u64);
        m = m + 1;
    }
    proof {
        lemma_day_offset(d);
    }
    total + ((d.day - 1) as u64)
}

/// Within a month the day count advances with the day of month.
proof fn lemma_day_offset(d: Date)
    requires
        date_valid(d),
    ensures
        date_num(d) == date_num(Date { day: 1, ..d }) + (d.day - 1),
    decreases d.day,
{
    if d.day > 1 {
        lemma_day_offset(Date { day: (d.day - 1) as i64, ..d });
    }
}

/// Stepping to the next month adds that month's length.
proof fn lemma_month_step(y: int, m: int)
    requires
        1900 <= y <= 2400,
        1 <= m <= 11,
    ensures
        date_num(Date { year: y as i64, month: (m + 1) as i64, day: 1 }) == date_num(
            Date { year: y as i64, month: m as i64, day: 1 },
        ) + spec_days_in_month(y, m),
{
    let eom = Date { year: y as i64, month: m as i64, day: spec_days_in_month(y, m) as i64 };
    lemma_day_offset(eom);
    assert(date_num(Date { year: y as i64, month: (m + 1) as i64, day: 1 }) == date_num(eom) + 1);
    assert(date_num(eom) == date_num(Date { year: y as i64, month: m as i64, day: 1 })
        + (spec_days_in_month(y, m) - 1));
}

/// Stepping to the next year adds that year's length.
proof fn lemma_year_step(y: int)
    requires
        1900 <= y <= 2399,
    ensures
        date_num(Date { year: (y + 1) as i64, month: 1, day: 1 }) == date_num(
            Date { year: y as i64, month: 1, day: 1 },
        ) + (if spec_is_leap(y) {
            366int
        } else {
            365int
        }),
{
    let mut_total: int = 0;
    assert(date_num(Date { year: (y + 1) as i64, month: 1, day: 1 }) == date_num(
        Date { year: y as i64, month: 12, day: 31 },
    ) + 1);
    lemma_day_offset(Date { year: y as i64, month: 12, day: 31 });
    lemma_month_step(y, 11);
    lemma_month_step(y, 10);
    lemma_month_step(y, 9);
    lemma_month_step(y, 8);
    lemma_month_step(y, 7);
    lemma_month_step(y, 6);
    lemma_month_step(y, 5);
    lemma_month_step(y, 4);
    lemma_month_step(y, 3);
    lemma_month_step(y, 2);
    lemma_month_step(y, 1);
}

/// The weekday, zero for Monday.
pub fn weekday(d: Date) -> (r: u64)
    requires
        date_valid(d),
    ensures
        r as int == spec_weekday(d),
        r <= 6,
{
    let n = date_num_exec(d);
    n % 7
}

/// The Monday on or before the date.
pub fn week_start_monday(d: Date) -> (r: Date)
    requires
        date_valid(d),
        d.year <= 2300,
    ensures
        r == spec_week_start(d),
        date_valid(r),
        date_num(r) == date_num(d) - spec_weekday(d),
        spec_weekday(r) == 0,
        r.year <= 2300,
{
    let wd = weekday(d);
    proof {
        lemma_date_num_lower(d);
        assert(date_num(d) % 7 <= date_num(d));
    }
    sub_days(d, wd)
}

/// The date `n` days earlier.
pub fn sub_days(d: Date, n: u64) -> (r: Date)
    requires
        date_valid(d),
        n as int <= date_num(d),
        n <= 6,
    ensures
        r == spec_sub_days(d, n as int),
        date_valid(r),
        date_num(r) == date_num(d) - n,
        r.year <= d.year,
{
    let mut cur = d;
    let mut left = n;
    while left > 0
        invariant
            date_valid(cur),
            left <= n,
            date_num(cur) == date_num(d) - (n - left),
            left as int <= date_num(cur),
            cur.year <= d.year,
            spec_sub_days(cur, left as int) == spec_sub_days(d, n as int),
        decreases left,
    {
        cur = prev_day(cur);
        left = left - 1;
    }
    cur
}

/// The day before, as a calendar value.
pub open spec fn spec_prev_day(d: Date) -> Date {
    if d.day > 1 {
        Date { day: (d.day - 1) as i64, ..d }
    } else if d.month > 1 {
        Date {
            month: (d.month - 1) as i64,
            day: spec_days_in_month(d.year as int, d.month as int - 1) as i64,
            ..d
        }
    } else {
        Date { year: (d.year - 1) as i64, month: 12, day: 31 }
    }
}

/// The date `n` days earlier, as a calendar value.
pub open spec fn spec_sub_days(d: Date, n: int) -> Date
    decreases n,
{
    if n <= 0 {
        d
    } else {
        spec_sub_days(spec_prev_day(d), n - 1)
    }
}

/// The Monday on or before a date, as a calendar value.
pub open spec fn spec_week_start(d: Date) -> Date {
    spec_sub_days(d, spec_weekday(d))
}

/// The day before; defined wherever the day count is positive.
pub fn prev_day(d: Date) -> (r: Date)
    requires
        date_valid(d),
        date_num(d) >= 1,
    ensures
        r == spec_prev_day(d),
        date_valid(r),
        date_num(r) == date_num(d) - 1,
        r.year <= d.year,
{
    if d.day > 1 {
        let r = Date { day: d.day - 1, ..d };
        proof {
            assert(date_num(d) == date_num(r) + 1);
        }
        r
    } else if d.month > 1 {
        let r = Date { month: d.month - 1, day: days_in_month(d.year, d.month - 1), ..d };
        proof {
            assert(date_num(d) == date_num(r) + 1);
        }
        r
    } else {
        proof {
            assert(d.year > 1900) by {
                if d.year <= 1900 {
                    assert(date_num(d) == 0);
                }
            }
        }
        let r = Date { year: d.year - 1, month: 12, day: 31 };
        proof {
            assert(date_num(d) == date_num(r) + 1);
        }
        r
    }
}

/// The ISO rendering `YYYY-MM-DD` of a date.
pub open spec fn spec_iso(d: Date) -> Seq<char> {
    seq![
        spec_digit_char(d.year as int / 1000 % 10),
        spec_digit_char(d.year as int / 100 % 10),
        spec_digit_char(d.year as int / 10 % 10),
        spec_digit_char(d.year as int % 10),
        '-',
        spec_digit_char(d.month as int / 10),
        spec_digit_char(d.month as int % 10),
        '-',
        spec_digit_char(d.day as int / 10),
        spec_digit_char(d.day as int % 10),
    ]
}

/// Render a date as `YYYY-MM-DD`.
pub fn format_iso(d: Date) -> (r: String)
    requires
        date_valid(d),
    ensures
        r@ == spec_iso(d),
{
    let mut v: Vec<char> = Vec::new();
    v.push(digit_char(((d.year / 1000) % 10) as u64));
    v.push(digit_char(((d.year / 100) % 10) as u64));
    v.push(digit_char(((d.year / 10) % 10) as u64));
    v.push(digit_char((d.year % 10) as u64));
    v.push('-');
    v.push(digit_char((d.month / 10) as u64));
    v.push(digit_char((d.month % 10) as u64));
    v.push('-');
    v.push(digit_char((d.day / 10) as u64));
    v.push(digit_char((d.day % 10) as u64));
    proof {
        assert(v@ =~= spec_iso(d));
    }
    string_from_chars(&v)
}

/// The head the dashed parser reads: the trimmed text's first ten
/// characters when it is at least that long, the whole of it otherwise.
pub open spec fn spec_iso_head(s: Seq<char>) -> Seq<char> {
    let t = crate::text::spec_trim(s);
    if t.len() >= 10 {
        t.subrange(0, 10)
    } else {
        t
    }
}

/// The three dash-separated fields of the head, each a non-empty run of
/// digits within its cap, read as a date of the domain.
pub open spec fn spec_iso_fields(p: Seq<char>, d1: int, d2: int) -> Option<Date> {
    let ys = p.subrange(0, d1);
    let ms = p.subrange(d1 + 1, d2);
    let ds = p.subrange(d2 + 1, p.len() as int);
    if ys.len() == 0 || !crate::text::all_digits(ys) || crate::text::digits_val(ys) > 9999 {
        None
    } else if ms.len() == 0 || !crate::text::all_digits(ms) || crate::text::digits_val(ms) > 99 {
        None
    } else if ds.len() == 0 || !crate::text::all_digits(ds) || crate::text::digits_val(ds) > 99 {
        None
    } else {
        let dt = Date {
            year: crate::text::digits_val(ys) as i64,
            month: crate::text::digits_val(ms) as i64,
            day: crate::text::digits_val(ds) as i64,
        };
        if date_valid(dt) {
            Some(dt)
        } else {
            None
        }
    }
}

/// What the dashed parser returns on a text: `None` unless its head holds
/// exactly two dashes, else the date its fields denote.
pub open spec fn spec_parse_iso(s: Seq<char>) -> Option<Date> {
    let p = spec_iso_head(s);
    if !p.contains('-') {
        None
    } else {
        let d1 = spec_first_char_ix(p, '-');
        if !p.skip(d1 + 1).contains('-') {
            None
        } else {
            let d2 = d1 + 1 + spec_first_char_ix(p.skip(d1 + 1), '-');
            if p.skip(d2 + 1).contains('-') {
                None
            } else {
                spec_iso_fields(p, d1, d2)
            }
        }
    }
}

/// Parse `YYYY-MM-DD` from the head of a trimmed text: the first ten
/// characters when the text is at least that long, the whole text
/// otherwise, split on dashes into exactly three all-digit fields that
/// make a date of the domain.
pub fn parse_iso_date_from_string(text: &String) -> (r: Option<Date>)
    ensures
        r == spec_parse_iso(text@),
        match r {
            Some(d) => date_valid(d),
            None => true,
        },
{
    let chars = chars_vec(text.as_str());
    let trimmed = trim_chars(&chars);
    let ghost p = spec_iso_head(text@);
    let mut part: Vec<char> = Vec::new();
    let mut i: usize = 0;
    let limit: usize = if trimmed.len() >= 10 {
        10
    } else {
        trimmed.len()
    };
    proof {
        assert(p == trimmed@.subrange(0, limit as int));
    }
    while i < limit
        invariant
            limit <= trimmed@.len(),
            i <= limit,
            part@ == trimmed@.subrange(0, i as int),
        decreases limit - i,
    {
        part.push(trimmed[i]);
        proof {
            assert(part@ =~= trimmed@.subrange(0, i + 1));
        }
        i = i + 1;
    }
    proof {
        assert(part@ == p);
    }
    let mut dash1: Option<usize> = None;
    let mut dash2: Option<usize> = None;
    let mut extra = false;
    let mut j: usize = 0;
    while j < part.len()
        invariant
            j <= part@.len(),
            part@ == p,
            match dash1 {
                Some(x) => x < j && p[x as int] == '-' && (forall|t: int|
                    0 <= t < x ==> p[t] != '-'),
                None => forall|t: int| 0 <= t < j ==> p[t] != '-',
            },
            match dash2 {
                Some(x) => {
                    &&& dash1 is Some
                    &&& x < j
                    &&& p[x as int] == '-'
                    &&& dash1 matches Some(x1) ==> x1 < x && (forall|t: int|
                        x1 < t < x ==> p[t] != '-')
                },
                None => dash1 matches Some(x1) ==> forall|t: int| x1 < t < j ==> p[t] != '-',
            },
            extra == (dash2 matches Some(x2) && exists|t: int|
                x2 < t < j && #[trigger] p[t] == '-'),
        decreases part@.len() - j,
    {
        if part[j] == '-' {
            if dash1.is_none() {
                dash1 = Some(j);
            } else if dash2.is_none() {
                dash2 = Some(j);
            } else {
                proof {
                    assert(dash2 matches Some(x2) && x2 < j as int && p[j as int] == '-');
                }
                extra = true;
            }
        }
        j = j + 1;
    }
    if extra {
        proof {
            let x1 = dash1->0 as int;
            let x2 = dash2->0 as int;
            pin_first_char(p, '-', x1);
            let rest = p.skip(x1 + 1);
            assert(rest[x2 - x1 - 1] == '-');
            assert forall|t: int| 0 <= t < x2 - x1 - 1 implies rest[t] != '-' by {
                assert(rest[t] == p[t + x1 + 1]);
            }
            pin_first_char(rest, '-', x2 - x1 - 1);
            let t0 = choose|t: int| x2 < t < p.len() && #[trigger] p[t] == '-';
            assert(p.skip(x2 + 1)[t0 - x2 - 1] == '-');
            assert(p.skip(x2 + 1).contains('-'));
        }
        return None;
    }
    let d1 = match dash1 {
        Some(x) => x,
        None => {
            proof {
                assert forall|t: int| 0 <= t < p.len() implies p[t] != '-' by {}
                assert(!p.contains('-'));
            }
            return None;
        },
    };
    let d2 = match dash2 {
        Some(x) => x,
        None => {
            proof {
                pin_first_char(p, '-', d1 as int);
                let rest = p.skip(d1 + 1);
                assert forall|t: int| 0 <= t < rest.len() implies rest[t] != '-' by {
                    assert(rest[t] == p[t + d1 + 1]);
                }
                assert(!rest.contains('-'));
            }
            return None;
        },
    };
    proof {
        pin_first_char(p, '-', d1 as int);
        let rest = p.skip(d1 as int + 1);
        assert(rest[d2 - d1 - 1] == '-');
        assert forall|t: int| 0 <= t < d2 - d1 - 1 implies rest[t] != '-' by {
            assert(rest[t] == p[t + d1 + 1]);
        }
        pin_first_char(rest, '-', d2 - d1 - 1);
        let tail = p.skip(d2 as int + 1);
        assert forall|t: int| 0 <= t < tail.len() implies tail[t] != '-' by {
            assert(tail[t] == p[t + d2 + 1]);
        }
        assert(!tail.contains('-'));
    }
    if !(d1 < d2 && d2 < part.len()) {
        return None;
    }
    let y = match parse_digits(&part, 0, d1, 9999) {
        Some(v) => v,
        None => {
            return None;
        },
    };
    let m = match parse_digits(&part, d1 + 1, d2, 99) {
        Some(v) => v,
        None => {
            return None;
        },
    };
    let d = match parse_digits(&part, d2 + 1, part.len(), 99) {
        Some(v) => v,
        None => {
            return None;
        },
    };
    make_date(y as i64, m as i64, d as i64)
}


/// The value of a Chinese numeral digit.
pub open spec fn spec_cn_digit(c: char) -> Option<int> {
    if c == '\u{96F6}' {
        Some(0int)
    } else if c == '\u{4E00}' {
        Some(1int)
    } else if c == '\u{4E8C}' {
        Some(2int)
    } else if c == '\u{4E09}' {
        Some(3int)
    } else if c == '\u{56DB}' {
        Some(4int)
    } else if c == '\u{4E94}' {
        Some(5int)
    } else if c == '\u{516D}' {
        Some(6int)
    } else if c == '\u{4E03}' {
        Some(7int)
    } else if c == '\u{516B}' {
        Some(8int)
    } else if c == '\u{4E5D}' {
        Some(9int)
    } else {
        None
    }
}

fn cn_digit(c: char) -> (r: Option<i64>)
    ensures
        match r {
            Some(v) => spec_cn_digit(c) == Some(v as int),
            None => spec_cn_digit(c) is None,
        },
{
    if c == '\u{96F6}' {
        Some(0)
    } else if c == '\u{4E00}' {
        Some(1)
    } else if c == '\u{4E8C}' {
        Some(2)
    } else if c == '\u{4E09}' {
        Some(3)
    } else if c == '\u{56DB}' {
        Some(4)
    } else if c == '\u{4E94}' {
        Some(5)
    } else if c == '\u{516D}' {
        Some(6)
    } else if c == '\u{4E03}' {
        Some(7)
    } else if c == '\u{516B}' {
        Some(8)
    } else if c == '\u{4E5D}' {
        Some(9)
    } else {
        None
    }
}

/// A numeral character: an ASCII digit, a Chinese digit, the doubling
/// form, or the tens marker.
pub open spec fn spec_is_num_char(c: char) -> bool {
    crate::text::spec_is_ascii_digit(c) || spec_cn_digit(c) is Some || c == '\u{4E24}' || c
        == '\u{5341}'
}

fn is_num_char(c: char) -> (r: bool)
    ensures
        r == spec_is_num_char(c),
{
    crate::text::is_ascii_digit_c(c) || cn_digit(c).is_some() || c == '\u{4E24}' || c
        == '\u{5341}'
}

/// The doubling numeral reads as two.
pub open spec fn spec_cn_normalize(s: Seq<char>) -> Seq<char> {
    s.map_values(
        |c: char|
            if c == '\u{4E24}' {
                '\u{4E8C}'
            } else {
                c
            },
    )
}

/// Folding a plain Chinese digit string, most significant first; `None` on
/// a non-digit or on overflow of the signed machine range.
pub open spec fn spec_cn_fold(s: Seq<char>, acc: int) -> Option<int>
    decreases s.len(),
{
    if acc > i64::MAX as int {
        None
    } else if s.len() == 0 {
        Some(acc)
    } else {
        match spec_cn_digit(s[0]) {
            None => None,
            Some(dv) => if acc * 10 + dv > i64::MAX as int {
                None
            } else {
                spec_cn_fold(s.skip(1), acc * 10 + dv)
            },
        }
    }
}

/// A signed ASCII decimal literal's value, if the text is one.
pub open spec fn spec_signed_decimal(t: Seq<char>) -> Option<int> {
    if t.len() == 0 {
        None
    } else if t[0] == '+' {
        if t.len() > 1 && all_digits(t.skip(1)) {
            Some(digits_val(t.skip(1)))
        } else {
            None
        }
    } else if t[0] == '-' {
        if t.len() > 1 && all_digits(t.skip(1)) {
            Some(-digits_val(t.skip(1)))
        } else {
            None
        }
    } else if all_digits(t) {
        Some(digits_val(t))
    } else {
        None
    }
}

/// The tens-and-ones reading around a tens marker: an empty left side
/// means one ten, an empty right side means zero ones, and each side may
/// hold at most one digit.
pub open spec fn spec_cn_value(t: Seq<char>) -> Option<int> {
    let n = spec_cn_normalize(t);
    if n =~= seq!['\u{5341}'] {
        Some(10int)
    } else if n.contains('\u{5341}') {
        let i = choose|i: int|
            0 <= i < n.len() && n[i] == '\u{5341}' && forall|j: int|
                0 <= j < i ==> n[j] != '\u{5341}';
        let left = n.take(i);
        let after = n.skip(i + 1);
        let right = if after.contains('\u{5341}') {
            let k = choose|k: int|
                0 <= k < after.len() && after[k] == '\u{5341}' && forall|j: int|
                    0 <= j < k ==> after[j] != '\u{5341}';
            after.take(k)
        } else {
            after
        };
        let tens = if left.len() == 0 {
            Some(1int)
        } else if left.len() == 1 {
            spec_cn_digit(left[0])
        } else {
            None
        };
        let ones = if right.len() == 0 {
            Some(0int)
        } else if right.len() == 1 {
            spec_cn_digit(right[0])
        } else {
            None
        };
        match (tens, ones) {
            (Some(tv), Some(ov)) => Some(tv * 10 + ov),
            _ => None,
        }
    } else {
        spec_cn_fold(n, 0)
    }
}

/// The number a trimmed token denotes: a signed ASCII decimal within the
/// machine range, else the Chinese numeral reading.
pub open spec fn spec_parse_cn_token(token: Seq<char>) -> Option<int> {
    let t = spec_trim(token);
    if t.len() == 0 {
        None
    } else {
        match spec_signed_decimal(t) {
            Some(v) => if i64::MIN as int <= v <= i64::MAX as int {
                Some(v)
            } else {
                spec_cn_value(t)
            },
            None => spec_cn_value(t),
        }
    }
}

/// Parse a numeral token: an ASCII integer literal, or Chinese numerals
/// with the tens-composition rule for ten through ninety-nine.
pub fn parse_chinese_number_token(token: &String) -> (r: Option<i64>)
    ensures
        match r {
            Some(v) => spec_parse_cn_token(token@) == Some(v as int),
            None => spec_parse_cn_token(token@) is None,
        },
{
    let chars = chars_vec(token.as_str());
    let t = trim_chars(&chars);
    if t.len() == 0 {
        return None;
    }
    // a plain signed decimal literal wins
    if t[0] == '+' {
        match parse_digits(&t, 1, t.len(), i64::MAX as u64) {
            Some(v) => {
                proof {
                    assert(t@.subrange(1, t@.len() as int) =~= t@.skip(1));
                    assert(spec_signed_decimal(t@) == Some(digits_val(t@.skip(1))));
                }
                return Some(v as i64);
            },
            None => {
                proof {
                    assert(t@.subrange(1, t@.len() as int) =~= t@.skip(1));
                }
            },
        }
    } else if t[0] == '-' {
        match parse_digits(&t, 1, t.len(), 0x8000_0000_0000_0000u64) {
            Some(v) => {
                proof {
                    assert(t@.subrange(1, t@.len() as int) =~= t@.skip(1));
                    assert(spec_signed_decimal(t@) == Some(-digits_val(t@.skip(1))));
                }
                if v == 0x8000_0000_0000_0000u64 {
                    return Some(i64::MIN);
                } else {
                    return Some(-(v as i64));
                }
            },
            None => {
                proof {
                    assert(t@.subrange(1, t@.len() as int) =~= t@.skip(1));
                }
            },
        }
    } else {
        match parse_digits(&t, 0, t.len(), i64::MAX as u64) {
            Some(v) => {
                proof {
                    assert(t@.subrange(0, t@.len() as int) =~= t@);
                    assert(spec_signed_decimal(t@) == Some(digits_val(t@)));
                }
                return Some(v as i64);
            },
            None => {
                proof {
                    assert(t@.subrange(0, t@.len() as int) =~= t@);
                }
            },
        }
    }
    proof {
        crate::text::lemma_digits_val_nonneg_pub(t@);
    }
    cn_value_exec(&t, token)
}

/// Helper naming the post-trim body of the token spec.
pub open spec fn spec_parse_cn_token_inner(t: Seq<char>) -> Option<int> {
    if t.len() == 0 {
        None
    } else {
        match spec_signed_decimal(t) {
            Some(v) => if i64::MIN as int <= v <= i64::MAX as int {
                Some(v)
            } else {
                spec_cn_value(t)
            },
            None => spec_cn_value(t),
        }
    }
}

/// The Chinese-numeral reading of a trimmed token.
#[verifier::rlimit(100)]
fn cn_value_exec(t: &Vec<char>, token: &String) -> (r: Option<i64>)
    requires
        t@.len() > 0,
        t@ == spec_trim(token@),
        spec_signed_decimal(t@) is None || !(i64::MIN as int <= spec_signed_decimal(t@)->0
            <= i64::MAX as int),
    ensures
        match r {
            Some(v) => spec_parse_cn_token(token@) == Some(v as int),
            None => spec_parse_cn_token(token@) is None,
        },
{
    let mut n: Vec<char> = Vec::new();
    let mut i: usize = 0;
    while i < t.len()
        invariant
            i <= t@.len(),
            n@ == spec_cn_normalize(t@).take(i as int),
        decreases t@.len() - i,
    {
        let c = t[i];
        if c == '\u{4E24}' {
            n.push('\u{4E8C}');
        } else {
            n.push(c);
        }
        i = i + 1;
        proof {
            assert(n@ =~= spec_cn_normalize(t@).take(i as int));
        }
    }
    proof {
        assert(spec_cn_normalize(t@).take(t@.len() as int) =~= spec_cn_normalize(t@));
    }
    let ghost nv = spec_cn_normalize(t@);
    if n.len() == 1 && n[0] == '\u{5341}' {
        proof {
            assert(nv =~= seq!['\u{5341}']);
        }
        return Some(10);
    }
    proof {
        if nv =~= seq!['\u{5341}'] {
            assert(n@[0] == '\u{5341}');
            assert(false);
        }
    }
    match crate::text::find_char(&n, '\u{5341}') {
        Some(ix) => {
            proof {
                assert(nv[ix as int] == '\u{5341}');
                assert(nv.contains('\u{5341}'));
                let i0 = choose|i0: int|
                    0 <= i0 < nv.len() && nv[i0] == '\u{5341}' && forall|j: int|
                        0 <= j < i0 ==> nv[j] != '\u{5341}';
                if i0 != ix {
                    if i0 < ix {
                        assert(nv[i0] != '\u{5341}');
                    } else {
                        assert(nv[ix as int] != '\u{5341}');
                    }
                }
            }
            let tens: i64 = if ix == 0 {
                1
            } else if ix == 1 {
                match cn_digit(n[0]) {
                    Some(v) => v,
                    None => {
                        proof {
                            assert(nv.take(ix as int)[0] == nv[0]);
                        }
                        return None;
                    },
                }
            } else {
                return None;
            };
            proof {
                if ix == 1 {
                    assert(nv.take(1)[0] == nv[0]);
                }
            }
            // the right side runs to the next tens marker, if any
            let mut rend: usize = n.len();
            let mut k: usize = ix + 1;
            let mut found = false;
            while k < n.len()
                invariant
                    ix < n@.len(),
                    ix < k <= n@.len(),
                    found ==> rend < n@.len() && n@[rend as int] == '\u{5341}' && rend >= ix + 1
                        && forall|j: int| ix + 1 <= j < rend ==> n@[j] != '\u{5341}',
                    !found ==> rend == n@.len() && forall|j: int|
                        ix + 1 <= j < k ==> n@[j] != '\u{5341}',
                decreases n@.len() - k,
            {
                if !found && n[k] == '\u{5341}' {
                    rend = k;
                    found = true;
                }
                k = k + 1;
            }
            let ghost after = nv.skip(ix + 1);
            let ghost right = if after.contains('\u{5341}') {
                let kk = choose|kk: int|
                    0 <= kk < after.len() && after[kk] == '\u{5341}' && forall|j: int|
                        0 <= j < kk ==> after[j] != '\u{5341}';
                after.take(kk)
            } else {
                after
            };
            proof {
                if found {
                    assert(after[rend - (ix + 1)] == '\u{5341}');
                    assert(after.contains('\u{5341}'));
                    let kk = choose|kk: int|
                        0 <= kk < after.len() && after[kk] == '\u{5341}' && forall|j: int|
                            0 <= j < kk ==> after[j] != '\u{5341}';
                    if kk != rend - (ix + 1) {
                        if kk < rend - (ix + 1) {
                            assert(nv[ix + 1 + kk] != '\u{5341}');
                            assert(after[kk] == nv[ix + 1 + kk]);
                        } else {
                            assert(after[rend - (ix + 1)] != '\u{5341}');
                        }
                    }
                    assert(right =~= after.take(rend - (ix + 1)));
                } else {
                    if after.contains('\u{5341}') {
                        let kk = choose|kk: int|
                            0 <= kk < after.len() && #[trigger] after[kk] == '\u{5341}';
                        assert(nv[ix + 1 + kk] == '\u{5341}');
                        assert(false);
                    }
                    assert(right =~= after);
                }
            }
            let rlen = rend - (ix + 1);
            let ones: i64 = if rlen == 0 {
                0
            } else if rlen == 1 {
                proof {
                    assert(right[0] == nv[ix + 1]);
                }
                match cn_digit(n[ix + 1]) {
                    Some(v) => v,
                    None => {
                        return None;
                    },
                }
            } else {
                return None;
            };
            Some(tens * 10 + ones)
        },
        None => {
            proof {
                if nv.contains('\u{5341}') {
                    let i0 = choose|i0: int|
                        0 <= i0 < nv.len() && #[trigger] nv[i0] == '\u{5341}';
                    assert(false);
                }
                if nv =~= seq!['\u{5341}'] {
                    assert(nv[0] == '\u{5341}');
                    assert(false);
                }
            }
            let mut acc: i64 = 0;
            let mut j: usize = 0;
            while j < n.len()
                invariant
                    j <= n@.len(),
                    0 <= acc,
                    spec_cn_fold(n@.skip(j as int), acc as int) == spec_cn_fold(n@, 0),
                    n@ == spec_cn_normalize(t@),
                    t@.len() > 0,
                    t@ == spec_trim(token@),
                    spec_signed_decimal(t@) is None || !(i64::MIN as int <= spec_signed_decimal(
                        t@,
                    )->0 <= i64::MAX as int),
                    !spec_cn_normalize(t@).contains('\u{5341}'),
                    !(spec_cn_normalize(t@) =~= seq!['\u{5341}']),
                decreases n@.len() - j,
            {
                proof {
                    assert(n@.skip(j as int)[0] == n@[j as int]);
                    assert(n@.skip(j as int).skip(1) =~= n@.skip(j + 1));
                }
                let dv = match cn_digit(n[j]) {
                    Some(v) => v,
                    None => {
                        proof {
                            assert(spec_cn_fold(n@.skip(j as int), acc as int) is None);
                            assert(spec_cn_value(t@) is None);
                        }
                        return None;
                    },
                };
                if acc > (i64::MAX - dv) / 10 {
                    proof {
                        assert(acc as int * 10 + dv as int > i64::MAX as int) by (nonlinear_arith)
                            requires
                                acc as int > (i64::MAX as int - dv as int) / 10,
                                0 <= dv as int <= 9,
                                acc >= 0,
                        ;
                        assert(spec_cn_fold(n@.skip(j as int), acc as int) is None);
                        assert(spec_cn_value(t@) is None);
                    }
                    return None;
                }
                proof {
                    assert(acc as int * 10 + dv as int <= i64::MAX as int) by (nonlinear_arith)
                        requires
                            acc as int <= (i64::MAX as int - dv as int) / 10,
                            0 <= dv as int <= 9,
                            acc >= 0,
                    ;
                }
                acc = acc * 10 + dv;
                j = j + 1;
            }
            proof {
                assert(n@.skip(n@.len() as int) =~= Seq::<char>::empty());
                assert(spec_cn_fold(n@.skip(n@.len() as int), acc as int) == Some(acc as int));
                assert(spec_cn_value(t@) == Some(acc as int));
            }
            Some(acc)
        },
    }
}



/// Length of the numeral run that ends a text, after trailing whitespace.
pub open spec fn num_suffix_len(s: Seq<char>) -> int
    decreases s.len(),
{
    if s.len() == 0 || !spec_is_num_char(s[s.len() - 1]) {
        0
    } else {
        1 + num_suffix_len(s.take(s.len() - 1))
    }
}

/// Length of the numeral run that opens a text, after leading whitespace.
pub open spec fn num_prefix_len(s: Seq<char>) -> int
    decreases s.len(),
{
    if s.len() == 0 || !spec_is_num_char(s[0]) {
        0
    } else {
        1 + num_prefix_len(s.skip(1))
    }
}

/// The numeral token that ends a text: trailing whitespace is skipped,
/// then the numeral run is taken; empty when a non-numeral comes first.
pub open spec fn spec_trailing_token(s: Seq<char>) -> Seq<char> {
    let core = s.take(s.len() - crate::text::trailing_spaces(s));
    core.skip(core.len() - num_suffix_len(core))
}

/// The numeral token that opens a text, symmetric to the trailing one.
pub open spec fn spec_leading_token(s: Seq<char>) -> Seq<char> {
    let core = s.skip(crate::text::leading_spaces(s));
    core.take(num_prefix_len(core))
}

proof fn lemma_num_suffix_bound(s: Seq<char>)
    ensures
        0 <= num_suffix_len(s) <= s.len(),
        forall|j: int| s.len() - num_suffix_len(s) <= j < s.len() ==> spec_is_num_char(s[j]),
        num_suffix_len(s) < s.len() ==> !spec_is_num_char(s[s.len() - num_suffix_len(s) - 1]),
    decreases s.len(),
{
    if s.len() == 0 || !spec_is_num_char(s[s.len() - 1]) {
    } else {
        lemma_num_suffix_bound(s.take(s.len() - 1));
        assert forall|j: int| s.len() - num_suffix_len(s) <= j < s.len() implies spec_is_num_char(
            s[j],
        ) by {
            if j < s.len() - 1 {
                assert(s.take(s.len() - 1)[j] == s[j]);
            }
        }
        if num_suffix_len(s) < s.len() {
            assert(s.take(s.len() - 1)[s.len() - num_suffix_len(s) - 1] == s[s.len()
                - num_suffix_len(s) - 1]);
        }
    }
}

proof fn lemma_num_prefix_bound(s: Seq<char>)
    ensures
        0 <= num_prefix_len(s) <= s.len(),
        forall|j: int| 0 <= j < num_prefix_len(s) ==> spec_is_num_char(s[j]),
        num_prefix_len(s) < s.len() ==> !spec_is_num_char(s[num_prefix_len(s)]),
    decreases s.len(),
{
    if s.len() == 0 || !spec_is_num_char(s[0]) {
    } else {
        lemma_num_prefix_bound(s.skip(1));
        assert forall|j: int| 0 <= j < num_prefix_len(s) implies spec_is_num_char(s[j]) by {
            if j > 0 {
                assert(s.skip(1)[j - 1] == s[j]);
            }
        }
        if num_prefix_len(s) < s.len() {
            assert(s.skip(1)[num_prefix_len(s) - 1] == s[num_prefix_len(s)]);
        }
    }
}

/// Extract the numeral token that ends a text, if any.
pub fn extract_trailing_number_token(text: &Vec<char>) -> (r: Option<Vec<char>>)
    ensures
        match r {
            Some(tok) => tok@ == spec_trailing_token(text@) && tok@.len() > 0,
            None => spec_trailing_token(text@).len() == 0,
        },
{
    proof {
        crate::text::lemma_trailing_spaces_bound(text@);
    }
    let mut hi: usize = text.len();
    while hi > 0 && crate::text::is_space_c(text[hi - 1])
        invariant
            hi <= text@.len(),
            forall|j: int| hi <= j < text@.len() ==> crate::text::spec_is_space(text@[j]),
            crate::text::trailing_spaces(text@) >= text@.len() - hi,
        decreases hi,
    {
        proof {
            crate::text::lemma_trailing_spaces_suffix_pub(text@, (text@.len() - hi) as int);
        }
        hi = hi - 1;
    }
    proof {
        crate::text::lemma_trailing_spaces_bound(text@);
        if hi > 0 {
            assert(crate::text::trailing_spaces(text@) <= text@.len() - hi);
        } else {
            if crate::text::trailing_spaces(text@) < text@.len() {
                assert(crate::text::spec_is_space(text@[text@.len() - crate::text::trailing_spaces(
                    text@,
                ) - 1]));
                assert(false);
            }
        }
        assert(hi as int == text@.len() - crate::text::trailing_spaces(text@));
    }
    let ghost core = text@.take(hi as int);
    proof {
        lemma_num_suffix_bound(core);
    }
    let mut lo: usize = hi;
    while lo > 0 && is_num_char(text[lo - 1])
        invariant
            lo <= hi <= text@.len(),
            core == text@.take(hi as int),
            forall|j: int| lo <= j < hi ==> spec_is_num_char(text@[j]),
            num_suffix_len(core) >= hi - lo,
        decreases lo,
    {
        proof {
            lemma_num_suffix_run(core, (hi - lo) as int);
            assert(core[lo - 1] == text@[lo - 1]);
        }
        lo = lo - 1;
    }
    proof {
        lemma_num_suffix_bound(core);
        if lo > 0 {
            assert(core[lo - 1] == text@[lo - 1]);
            assert(num_suffix_len(core) <= hi - lo);
        } else {
            if num_suffix_len(core) < core.len() {
                assert(spec_is_num_char(core[core.len() - num_suffix_len(core) - 1]));
                assert(core[core.len() - num_suffix_len(core) - 1] == text@[core.len()
                    - num_suffix_len(core) - 1]);
                assert(false);
            }
        }
        assert(lo as int == hi - num_suffix_len(core));
    }
    if lo == hi {
        proof {
            assert(spec_trailing_token(text@) =~= core.skip(core.len() as int));
        }
        return None;
    }
    let mut tok: Vec<char> = Vec::new();
    let mut i: usize = lo;
    while i < hi
        invariant
            lo <= i <= hi <= text@.len(),
            tok@ == text@.subrange(lo as int, i as int),
        decreases hi - i,
    {
        tok.push(text[i]);
        i = i + 1;
        proof {
            assert(tok@ =~= text@.subrange(lo as int, i as int));
        }
    }
    proof {
        assert(tok@ =~= spec_trailing_token(text@));
    }
    Some(tok)
}

proof fn lemma_num_suffix_run(s: Seq<char>, k: int)
    requires
        0 <= k < s.len(),
        forall|j: int| s.len() - k - 1 <= j < s.len() ==> spec_is_num_char(s[j]),
    ensures
        num_suffix_len(s) >= k + 1,
    decreases k,
{
    if k == 0 {
        lemma_num_suffix_bound(s.take(s.len() - 1));
    } else {
        assert forall|j: int|
            s.take(s.len() - 1).len() - (k - 1) - 1 <= j < s.take(s.len() - 1).len() implies
            spec_is_num_char(#[trigger] s.take(s.len() - 1)[j]) by {
            assert(s.take(s.len() - 1)[j] == s[j]);
        }
        lemma_num_suffix_run(s.take(s.len() - 1), k - 1);
    }
}

/// Extract the numeral token that opens a text, if any.
pub fn extract_leading_number_token(text: &Vec<char>) -> (r: Option<Vec<char>>)
    ensures
        match r {
            Some(tok) => tok@ == spec_leading_token(text@) && tok@.len() > 0,
            None => spec_leading_token(text@).len() == 0,
        },
{
    proof {
        crate::text::lemma_leading_spaces_bound(text@);
    }
    let mut lo: usize = 0;
    while lo < text.len() && crate::text::is_space_c(text[lo])
        invariant
            lo <= text@.len(),
            forall|j: int| 0 <= j < lo ==> crate::text::spec_is_space(text@[j]),
            crate::text::leading_spaces(text@) >= lo,
        decreases text@.len() - lo,
    {
        proof {
            crate::text::lemma_leading_spaces_prefix_pub(text@, lo as int);
        }
        lo = lo + 1;
    }
    proof {
        crate::text::lemma_leading_spaces_bound(text@);
        if lo < text@.len() {
            assert(crate::text::leading_spaces(text@) <= lo);
        }
        assert(lo as int == crate::text::leading_spaces(text@));
    }
    let ghost core = text@.skip(lo as int);
    proof {
        lemma_num_prefix_bound(core);
    }
    let mut hi: usize = lo;
    while hi < text.len() && is_num_char(text[hi])
        invariant
            lo <= hi <= text@.len(),
            core == text@.skip(lo as int),
            forall|j: int| lo <= j < hi ==> spec_is_num_char(text@[j]),
            num_prefix_len(core) >= hi - lo,
        decreases text@.len() - hi,
    {
        proof {
            lemma_num_prefix_run(core, (hi - lo) as int);
            assert(core[hi - lo] == text@[hi as int]);
        }
        hi = hi + 1;
    }
    proof {
        lemma_num_prefix_bound(core);
        if hi < text@.len() {
            assert(core[hi - lo] == text@[hi as int]);
            assert(num_prefix_len(core) <= hi - lo);
        } else {
            if num_prefix_len(core) < core.len() {
                assert(spec_is_num_char(core[num_prefix_len(core)]));
                assert(core[num_prefix_len(core)] == text@[lo + num_prefix_len(core)]);
                assert(false);
            }
        }
        assert(hi - lo == num_prefix_len(core));
    }
    if lo == hi {
        proof {
            assert(spec_leading_token(text@) =~= core.take(0));
        }
        return None;
    }
    let mut tok: Vec<char> = Vec::new();
    let mut i: usize = lo;
    while i < hi
        invariant
            lo <= i <= hi <= text@.len(),
            tok@ == text@.subrange(lo as int, i as int),
        decreases hi - i,
    {
        tok.push(text[i]);
        i = i + 1;
        proof {
            assert(tok@ =~= text@.subrange(lo as int, i as int));
        }
    }
    proof {
        assert(tok@ =~= spec_leading_token(text@));
    }
    Some(tok)
}

proof fn lemma_num_prefix_run(s: Seq<char>, k: int)
    requires
        0 <= k < s.len(),
        forall|j: int| 0 <= j <= k ==> spec_is_num_char(s[j]),
    ensures
        num_prefix_len(s) >= k + 1,
    decreases k,
{
    if k == 0 {
        lemma_num_prefix_bound(s.skip(1));
    } else {
        assert forall|j: int| 0 <= j <= k - 1 implies spec_is_num_char(#[trigger] s.skip(1)[j]) by {
            assert(s.skip(1)[j] == s[j + 1]);
        }
        lemma_num_prefix_run(s.skip(1), k - 1);
    }
}

/// The weekday a single character names: Monday through Saturday by the
/// numerals one to six, Sunday by its day or sky character.
pub open spec fn spec_weekday_char(c: char) -> Option<int> {
    if c == '\u{4E00}' {
        Some(0int)
    } else if c == '\u{4E8C}' {
        Some(1int)
    } else if c == '\u{4E09}' {
        Some(2int)
    } else if c == '\u{56DB}' {
        Some(3int)
    } else if c == '\u{4E94}' {
        Some(4int)
    } else if c == '\u{516D}' {
        Some(5int)
    } else if c == '\u{65E5}' || c == '\u{5929}' {
        Some(6int)
    } else {
        None
    }
}

/// Map a character to its weekday, zero for Monday.
pub fn weekday_index_from_char(c: char) -> (r: Option<i64>)
    ensures
        match r {
            Some(v) => spec_weekday_char(c) == Some(v as int) && 0 <= v <= 6,
            None => spec_weekday_char(c) is None,
        },
{
    if c == '\u{4E00}' {
        Some(0)
    } else if c == '\u{4E8C}' {
        Some(1)
    } else if c == '\u{4E09}' {
        Some(2)
    } else if c == '\u{56DB}' {
        Some(3)
    } else if c == '\u{4E94}' {
        Some(4)
    } else if c == '\u{516D}' {
        Some(5)
    } else if c == '\u{65E5}' || c == '\u{5929}' {
        Some(6)
    } else {
        None
    }
}

/// The weekday named right after a marker: whitespace and the possessive
/// particle are skipped, the weekend character reads as Saturday, and any
/// other character must name a weekday.
pub open spec fn spec_weekday_after(tail: Seq<char>) -> Option<int>
    decreases tail.len(),
{
    if tail.len() == 0 {
        None
    } else if crate::text::spec_is_space(tail[0]) || tail[0] == '\u{7684}' {
        spec_weekday_after(tail.skip(1))
    } else if tail[0] == '\u{672B}' {
        Some(5int)
    } else {
        spec_weekday_char(tail[0])
    }
}

/// The weekday named after the first occurrence of a marker, if both the
/// marker and a weekday are there.
pub open spec fn spec_find_weekday_after(text: Seq<char>, marker: Seq<char>) -> Option<int> {
    if crate::text::spec_contains_sub(text, marker) {
        let i = choose|i: int|
            crate::text::is_sub_at(text, marker, i) && forall|j: int|
                0 <= j < i ==> !crate::text::is_sub_at(text, marker, j);
        spec_weekday_after(text.skip(i + marker.len()))
    } else {
        None
    }
}

/// Find the weekday named after a marker in a text.
pub fn find_weekday_after_marker(text: &Vec<char>, marker: &Vec<char>) -> (r: Option<i64>)
    ensures
        match r {
            Some(v) => spec_find_weekday_after(text@, marker@) == Some(v as int) && 0 <= v <= 6,
            None => spec_find_weekday_after(text@, marker@) is None,
        },
{
    let idx = match crate::text::find_sub(text, marker) {
        Some(i) => i,
        None => {
            return None;
        },
    };
    proof {
        assert(crate::text::spec_contains_sub(text@, marker@));
        let i0 = choose|i0: int|
            crate::text::is_sub_at(text@, marker@, i0) && forall|j: int|
                0 <= j < i0 ==> !crate::text::is_sub_at(text@, marker@, j);
        if i0 != idx {
            if i0 < idx {
                assert(!crate::text::is_sub_at(text@, marker@, i0));
            } else {
                assert(!crate::text::is_sub_at(text@, marker@, idx as int));
            }
        }
        assert(spec_find_weekday_after(text@, marker@) == spec_weekday_after(
            text@.skip(idx + marker@.len()),
        ));
    }
    let tl = text.len();
    let mut p: usize = idx + marker.len();
    while p < tl
        invariant
            tl == text@.len(),
            p <= text@.len(),
            spec_find_weekday_after(text@, marker@) == spec_weekday_after(text@.skip(p as int)),
        decreases text@.len() - p,
    {
        let c = text[p];
        proof {
            assert(text@.skip(p as int)[0] == c);
            assert(text@.skip(p as int).skip(1) =~= text@.skip(p + 1));
        }
        if crate::text::is_space_c(c) || c == '\u{7684}' {
            p = p + 1;
            continue ;
        }
        if c == '\u{672B}' {
            return Some(5);
        }
        return weekday_index_from_char(c);
    }
    proof {
        assert(text@.skip(text@.len() as int).len() == 0);
    }
    None
}



/// A date-run separator.
pub open spec fn spec_is_sep(c: char) -> bool {
    c == '-' || c == '/' || c == '.'
}

/// A character that belongs to a date run.
pub open spec fn spec_is_run_char(c: char) -> bool {
    crate::text::spec_is_ascii_digit(c) || spec_is_sep(c)
}

/// How many separators a run holds.
pub open spec fn spec_sep_count(s: Seq<char>) -> int
    decreases s.len(),
{
    if s.len() == 0 {
        0
    } else {
        (if spec_is_sep(s[0]) {
            1int
        } else {
            0int
        }) + spec_sep_count(s.skip(1))
    }
}

/// The nonempty fields of a run, split on separators: a fold carrying the
/// field under construction.
pub open spec fn spec_fields_from(cur: Seq<char>, rest: Seq<char>) -> Seq<Seq<char>>
    decreases rest.len(),
{
    if rest.len() == 0 {
        if cur.len() == 0 {
            Seq::empty()
        } else {
            seq![cur]
        }
    } else if spec_is_sep(rest[0]) {
        (if cur.len() == 0 {
            Seq::empty()
        } else {
            seq![cur]
        }) + spec_fields_from(Seq::empty(), rest.skip(1))
    } else {
        spec_fields_from(cur.push(rest[0]), rest.skip(1))
    }
}

/// The nonempty fields of a run.
pub open spec fn spec_fields(s: Seq<char>) -> Seq<Seq<char>> {
    spec_fields_from(Seq::empty(), s)
}

/// What one date run yields: at least two separators, three or more
/// all-digit fields whose first three read as a year from 1900 to 2200, a
/// month and a day making a date of the supported domain (fields beyond
/// the machine range fail like any other mismatch).
pub open spec fn spec_try_run(buf: Seq<char>) -> Option<Date> {
    if spec_sep_count(buf) < 2 {
        None
    } else {
        let parts = spec_fields(buf);
        if parts.len() < 3 {
            None
        } else {
            let ys = parts[0];
            let ms = parts[1];
            let ds = parts[2];
            if !(all_digits(ys) && digits_val(ys) <= 0x7FFF_FFFF) || !(all_digits(ms)
                && digits_val(ms) <= 0xFFFF_FFFF) || !(all_digits(ds) && digits_val(ds)
                <= 0xFFFF_FFFF) {
                None
            } else if !(1900 <= digits_val(ys) <= 2200) {
                None
            } else {
                let d = Date {
                    year: digits_val(ys) as i64,
                    month: digits_val(ms) as i64,
                    day: digits_val(ds) as i64,
                };
                if date_valid(d) {
                    Some(d)
                } else {
                    None
                }
            }
        }
    }
}

/// The scan over a text: runs of digits and separators accumulate; at a
/// break the run is tried and the first success wins, the final run last.
pub open spec fn spec_ymd_scan(chars: Seq<char>, buf: Seq<char>) -> Option<Date>
    decreases chars.len(),
{
    if chars.len() == 0 {
        spec_try_run(buf)
    } else if spec_is_run_char(chars[0]) {
        spec_ymd_scan(chars.skip(1), buf.push(chars[0]))
    } else {
        match spec_try_run(buf) {
            Some(d) => Some(d),
            None => spec_ymd_scan(chars.skip(1), Seq::empty()),
        }
    }
}

/// The separated-date reading of a whole text.
pub open spec fn spec_parse_ymd(text: Seq<char>) -> Option<Date> {
    spec_ymd_scan(text, Seq::empty())
}

/// A year-month-day separated by dashes, slashes or dots, anywhere in the
/// text: runs of digits and separators are tried left to right, and the
/// first run with at least two separators, three all-digit fields, a year
/// from 1900 to 2200 and a real calendar date wins.
pub fn parse_ymd_from_separated_text(text: &Vec<char>) -> (r: Option<Date>)
    ensures
        r == spec_parse_ymd(text@),
        match r {
            Some(d) => date_valid(d) && 1900 <= d.year <= 2200,
            None => true,
        },
{
    let mut buf: Vec<char> = Vec::new();
    let mut i: usize = 0;
    proof {
        assert(text@.skip(0) =~= text@);
    }
    while i < text.len()
        invariant
            i <= text@.len(),
            forall|k: int| 0 <= k < buf@.len() ==> spec_is_run_char(#[trigger] buf@[k]),
            spec_parse_ymd(text@) == spec_ymd_scan(text@.skip(i as int), buf@),
        decreases text@.len() - i,
    {
        let c = text[i];
        proof {
            assert(text@.skip(i as int)[0] == c);
            assert(text@.skip(i as int).skip(1) =~= text@.skip(i + 1));
        }
        if crate::text::is_ascii_digit_c(c) || c == '-' || c == '/' || c == '.' {
            buf.push(c);
        } else {
            match try_ymd_run(&buf) {
                Some(d) => {
                    return Some(d);
                },
                None => {},
            }
            buf = Vec::new();
        }
        i = i + 1;
    }
    proof {
        assert(text@.skip(text@.len() as int).len() == 0);
    }
    try_ymd_run(&buf)
}

/// Try one separator run as a date.
fn try_ymd_run(buf: &Vec<char>) -> (r: Option<Date>)
    requires
        forall|k: int| 0 <= k < buf@.len() ==> spec_is_run_char(#[trigger] buf@[k]),
    ensures
        r == spec_try_run(buf@),
        match r {
            Some(d) => date_valid(d) && 1900 <= d.year <= 2200,
            None => true,
        },
{
    // at least two separators are required of a run
    let mut seps: usize = 0;
    let mut i: usize = 0;
    proof {
        assert(buf@.skip(0) =~= buf@);
    }
    while i < buf.len()
        invariant
            i <= buf@.len(),
            seps <= i,
            spec_sep_count(buf@) == seps + spec_sep_count(buf@.skip(i as int)),
        decreases buf@.len() - i,
    {
        proof {
            assert(buf@.skip(i as int)[0] == buf@[i as int]);
            assert(buf@.skip(i as int).skip(1) =~= buf@.skip(i + 1));
        }
        if buf[i] == '-' || buf[i] == '/' || buf[i] == '.' {
            seps = seps + 1;
        }
        i = i + 1;
    }
    proof {
        assert(buf@.skip(buf@.len() as int).len() == 0);
    }
    if seps < 2 {
        return None;
    }
    // split into nonempty all-digit fields
    let mut parts: Vec<Vec<char>> = Vec::new();
    let mut cur: Vec<char> = Vec::new();
    let mut j: usize = 0;
    proof {
        assert(fields_view(parts@) + spec_fields_from(cur@, buf@.skip(0)) =~= spec_fields(buf@));
    }
    while j < buf.len()
        invariant
            j <= buf@.len(),
            forall|k: int| 0 <= k < buf@.len() ==> spec_is_run_char(#[trigger] buf@[k]),
            forall|k: int| 0 <= k < cur@.len() ==> crate::text::spec_is_ascii_digit(
                #[trigger] cur@[k],
            ),
            forall|p: int|
                0 <= p < parts@.len() ==> (#[trigger] parts@[p])@.len() > 0 && all_digits(
                    parts@[p]@,
                ),
            fields_view(parts@) + spec_fields_from(cur@, buf@.skip(j as int)) == spec_fields(
                buf@,
            ),
        decreases buf@.len() - j,
    {
        let c = buf[j];
        let ghost pre_parts = parts@;
        let ghost pre_cur = cur@;
        proof {
            assert(buf@.skip(j as int)[0] == c);
            assert(buf@.skip(j as int).skip(1) =~= buf@.skip(j + 1));
        }
        if c == '-' || c == '/' || c == '.' {
            proof {
                assert(spec_is_sep(c));
            }
            if cur.len() > 0 {
                proof {
                    assert(all_digits(cur@));
                }
                parts.push(cur);
                cur = Vec::new();
                proof {
                    assert(spec_fields_from(pre_cur, buf@.skip(j as int)) == seq![pre_cur]
                        + spec_fields_from(Seq::empty(), buf@.skip(j + 1)));
                    assert(fields_view(parts@) =~= fields_view(pre_parts) + seq![pre_cur]);
                    assert(fields_view(parts@) + spec_fields_from(cur@, buf@.skip(j + 1))
                        =~= fields_view(pre_parts) + (seq![pre_cur] + spec_fields_from(
                        Seq::empty(),
                        buf@.skip(j + 1),
                    )));
                    assert(fields_view(pre_parts) + (seq![pre_cur] + spec_fields_from(
                        Seq::empty(),
                        buf@.skip(j + 1),
                    )) =~= fields_view(pre_parts) + spec_fields_from(pre_cur, buf@.skip(j as int)));
                }
            } else {
                proof {
                    assert(cur@ =~= Seq::<char>::empty());
                    assert(spec_fields_from(cur@, buf@.skip(j as int)) == Seq::<Seq<char>>::empty()
                        + spec_fields_from(Seq::empty(), buf@.skip(j + 1)));
                    assert(Seq::<Seq<char>>::empty() + spec_fields_from(
                        Seq::empty(),
                        buf@.skip(j + 1),
                    ) =~= spec_fields_from(Seq::empty(), buf@.skip(j + 1)));
                }
            }
        } else {
            proof {
                assert(crate::text::spec_is_ascii_digit(c));
                assert(!spec_is_sep(c));
                assert(spec_fields_from(pre_cur, buf@.skip(j as int)) == spec_fields_from(
                    pre_cur.push(c),
                    buf@.skip(j + 1),
                ));
            }
            cur.push(c);
        }
        j = j + 1;
    }
    proof {
        assert(buf@.skip(buf@.len() as int).len() == 0);
    }
    if cur.len() > 0 {
        let ghost pre_parts = parts@;
        let ghost pre_cur = cur@;
        proof {
            assert(all_digits(cur@));
        }
        parts.push(cur);
        proof {
            assert(fields_view(parts@) =~= fields_view(pre_parts) + seq![pre_cur]);
            assert(fields_view(parts@) =~= spec_fields(buf@));
        }
    } else {
        proof {
            assert(fields_view(parts@) =~= spec_fields(buf@));
        }
    }
    if parts.len() < 3 {
        return None;
    }
    proof {
        assert(fields_view(parts@)[0] == parts@[0]@);
        assert(fields_view(parts@)[1] == parts@[1]@);
        assert(fields_view(parts@)[2] == parts@[2]@);
        assert(parts@[0]@.subrange(0, parts@[0]@.len() as int) =~= parts@[0]@);
        assert(parts@[1]@.subrange(0, parts@[1]@.len() as int) =~= parts@[1]@);
        assert(parts@[2]@.subrange(0, parts@[2]@.len() as int) =~= parts@[2]@);
    }
    let y = match parse_digits(&parts[0], 0, parts[0].len(), 0x7FFF_FFFF) {
        Some(v) => v,
        None => {
            return None;
        },
    };
    if !(1900 <= y && y <= 2200) {
        return None;
    }
    let m = match parse_digits(&parts[1], 0, parts[1].len(), 0xFFFF_FFFF) {
        Some(v) => v,
        None => {
            return None;
        },
    };
    let d = match parse_digits(&parts[2], 0, parts[2].len(), 0xFFFF_FFFF) {
        Some(v) => v,
        None => {
            return None;
        },
    };
    make_date(y as i64, m as i64, d as i64)
}

/// The views of split fields.
pub open spec fn fields_view(s: Seq<Vec<char>>) -> Seq<Seq<char>> {
    Seq::new(s.len(), |i: int| s[i]@)
}

/// First position of a character (meaningful when the text contains it).
pub open spec fn spec_first_char_ix(s: Seq<char>, c: char) -> int {
    choose|i: int| 0 <= i < s.len() && s[i] == c && forall|j: int| 0 <= j < i ==> s[j] != c
}

/// First position of a subtext (meaningful when the text contains it).
pub open spec fn spec_first_sub_ix(s: Seq<char>, n: Seq<char>) -> int {
    choose|i: int|
        crate::text::is_sub_at(s, n, i) && forall|j: int|
            0 <= j < i ==> !crate::text::is_sub_at(s, n, j)
}

/// The numeral token before a position, read as a number.
pub open spec fn spec_head_number(t: Seq<char>, pos: int) -> Option<int> {
    let tok = spec_trailing_token(t.take(pos));
    if tok.len() == 0 {
        None
    } else {
        spec_parse_cn_token(tok)
    }
}

/// The day token of a numeral date: before a day mark when one is there,
/// else right after the month mark.
pub open spec fn spec_day_number(t: Seq<char>, pos_month: int) -> Option<int> {
    if t.contains('\u{65E5}') {
        spec_head_number(t, spec_first_char_ix(t, '\u{65E5}'))
    } else {
        let tok = spec_leading_token(t.skip(pos_month + 1));
        if tok.len() == 0 {
            None
        } else {
            spec_parse_cn_token(tok)
        }
    }
}

/// The numeral year-month-day reading of a text that carries both a year
/// and a month mark.
pub open spec fn spec_cn_ymd(t: Seq<char>) -> Option<Date> {
    let py = spec_first_char_ix(t, '\u{5E74}');
    let pm = spec_first_char_ix(t, '\u{6708}');
    match (spec_head_number(t, py), spec_head_number(t, pm), spec_day_number(t, pm)) {
        (Some(y), Some(m), Some(d)) => {
            if 1900 <= y <= 2200 && date_valid(
                Date { year: y as i64, month: m as i64, day: d as i64 },
            ) {
                Some(Date { year: y as i64, month: m as i64, day: d as i64 })
            } else {
                None
            }
        },
        _ => None,
    }
}

/// The numeral month-day reading, disambiguated forward: the date in the
/// reference year, or the next year's when that one has already passed.
pub open spec fn spec_cn_md(t: Seq<char>, reference: Date) -> Option<Date> {
    let pm = spec_first_char_ix(t, '\u{6708}');
    match (spec_head_number(t, pm), spec_day_number(t, pm)) {
        (Some(m), Some(d)) => {
            let first = Date { year: reference.year, month: m as i64, day: d as i64 };
            if !date_valid(first) {
                None
            } else if date_lt(first, reference) {
                let next = Date {
                    year: (reference.year + 1) as i64,
                    month: m as i64,
                    day: d as i64,
                };
                if date_valid(next) {
                    Some(next)
                } else {
                    None
                }
            } else {
                Some(first)
            }
        },
        _ => None,
    }
}

/// An offset branch: the numeral before the first occurrence of the
/// marker, honored for zero to a year of days.
pub open spec fn spec_offset_branch(t: Seq<char>, marker: Seq<char>, reference: Date) -> Option<
    Date,
> {
    match spec_head_number(t, spec_first_sub_ix(t, marker)) {
        Some(o) => if 0 <= o <= 365 {
            Some(spec_add_days(reference, o))
        } else {
            None
        },
        None => None,
    }
}

/// A weekday in the week after the reference's week.
pub open spec fn spec_next_week_day(reference: Date, wd: int) -> Date {
    spec_add_days(spec_week_start(reference), 7 + wd)
}

/// A weekday in the reference's own week, moved a week ahead when it has
/// already passed.
pub open spec fn spec_this_week_day(reference: Date, wd: int) -> Date {
    let cand = spec_add_days(spec_week_start(reference), wd);
    if date_lt(cand, reference) {
        spec_add_days(cand, 7)
    } else {
        cand
    }
}

/// The whole rule chain over the trimmed text, first match winning: the
/// literal relative-day words; a numeral before an "N days after" marker
/// in its four spellings; a separated year-month-day; a numeral
/// year-month-day, then a numeral month-day pushed forward; and the
/// weekday-of-next-week and weekday-of-this-week phrases.
#[verifier::opaque]
pub open spec fn spec_rule_parse(text: Seq<char>, reference: Date) -> Option<Date> {
    let t = spec_trim(text);
    if t.len() == 0 {
        None
    } else if crate::text::spec_contains_sub(t, seq!['\u{4ECA}', '\u{5929}']) {
        Some(reference)
    } else if crate::text::spec_contains_sub(t, seq!['\u{660E}', '\u{5929}']) {
        Some(spec_add_days(reference, 1))
    } else if crate::text::spec_contains_sub(t, seq!['\u{540E}', '\u{5929}']) {
        Some(spec_add_days(reference, 2))
    } else if crate::text::spec_contains_sub(t, seq!['\u{5929}', '\u{4E4B}', '\u{540E}']) {
        spec_offset_branch(t, seq!['\u{5929}', '\u{4E4B}', '\u{540E}'], reference)
    } else if crate::text::spec_contains_sub(t, seq!['\u{65E5}', '\u{4E4B}', '\u{540E}']) {
        spec_offset_branch(t, seq!['\u{65E5}', '\u{4E4B}', '\u{540E}'], reference)
    } else if crate::text::spec_contains_sub(t, seq!['\u{5929}', '\u{540E}']) {
        spec_offset_branch(t, seq!['\u{5929}', '\u{540E}'], reference)
    } else if crate::text::spec_contains_sub(t, seq!['\u{65E5}', '\u{540E}']) {
        spec_offset_branch(t, seq!['\u{65E5}', '\u{540E}'], reference)
    } else if spec_parse_ymd(t) is Some {
        spec_parse_ymd(t)
    } else if t.contains('\u{5E74}') && t.contains('\u{6708}') && spec_cn_ymd(t) is Some {
        spec_cn_ymd(t)
    } else if t.contains('\u{6708}') && spec_cn_md(t, reference) is Some {
        spec_cn_md(t, reference)
    } else if spec_find_weekday_after(t, seq!['\u{4E0B}', '\u{5468}']) is Some {
        Some(spec_next_week_day(
            reference,
            spec_find_weekday_after(t, seq!['\u{4E0B}', '\u{5468}'])->0,
        ))
    } else if spec_find_weekday_after(t, seq!['\u{4E0B}', '\u{661F}', '\u{671F}']) is Some {
        Some(spec_next_week_day(
            reference,
            spec_find_weekday_after(t, seq!['\u{4E0B}', '\u{661F}', '\u{671F}'])->0,
        ))
    } else if spec_find_weekday_after(t, seq!['\u{672C}', '\u{5468}']) is Some {
        Some(spec_this_week_day(
            reference,
            spec_find_weekday_after(t, seq!['\u{672C}', '\u{5468}'])->0,
        ))
    } else if spec_find_weekday_after(t, seq!['\u{8FD9}', '\u{5468}']) is Some {
        Some(spec_this_week_day(
            reference,
            spec_find_weekday_after(t, seq!['\u{8FD9}', '\u{5468}'])->0,
        ))
    } else if spec_find_weekday_after(t, seq!['\u{5468}']) is Some {
        Some(spec_this_week_day(reference, spec_find_weekday_after(t, seq!['\u{5468}'])->0))
    } else {
        None
    }
}

/// Lexicographic order on dates, the calendar order.
pub open spec fn date_lt(a: Date, b: Date) -> bool {
    a.year < b.year || (a.year == b.year && a.month < b.month) || (a.year == b.year && a.month
        == b.month && a.day < b.day)
}

fn date_lt_exec(a: Date, b: Date) -> (r: bool)
    ensures
        r == date_lt(a, b),
{
    a.year < b.year || (a.year == b.year && a.month < b.month) || (a.year == b.year && a.month
        == b.month && a.day < b.day)
}

/// The rule-based parse of a free-form time expression against a
/// reference date, realizing `spec_rule_parse` exactly: the literal
/// today, tomorrow and day-after-tomorrow words; a numeral token before
/// an "N days after" marker, offsets up to a year; a separated
/// year-month-day; a year-month-day or month-day spelled with numeral
/// characters, the yearless form disambiguated forward to the reference
/// or later; and weekday-of-next-week or weekday-of-this-week phrases
/// anchored to a Monday-start week.
pub fn parse_date_from_time_text_rule(text: &String, reference: Date) -> (r: Option<Date>)
    requires
        date_valid(reference),
        reference.year <= 2203,
    ensures
        r == spec_rule_parse(text@, reference),
        match r {
            Some(d) => date_valid(d),
            None => true,
        },
{
    proof {
        reveal(spec_rule_parse);
    }
    let chars = chars_vec(text.as_str());
    let trimmed = trim_chars(&chars);
    let ghost t = spec_trim(text@);
    if trimmed.len() == 0 {
        return None;
    }
    let today_w = lit2('\u{4ECA}', '\u{5929}');
    if crate::text::contains_sub(&trimmed, &today_w) {
        return Some(reference);
    }
    let tomorrow_w = lit2('\u{660E}', '\u{5929}');
    if crate::text::contains_sub(&trimmed, &tomorrow_w) {
        return Some(add_days(reference, 1));
    }
    let after_w = lit2('\u{540E}', '\u{5929}');
    if crate::text::contains_sub(&trimmed, &after_w) {
        return Some(add_days(reference, 2));
    }
    let m1 = lit3('\u{5929}', '\u{4E4B}', '\u{540E}');
    match try_offset_marker(&trimmed, &m1, reference) {
        OffsetTry::Absent => {},
        OffsetTry::Hit(d) => {
            return Some(d);
        },
        OffsetTry::Dead => {
            return None;
        },
    }
    let m2 = lit3('\u{65E5}', '\u{4E4B}', '\u{540E}');
    match try_offset_marker(&trimmed, &m2, reference) {
        OffsetTry::Absent => {},
        OffsetTry::Hit(d) => {
            return Some(d);
        },
        OffsetTry::Dead => {
            return None;
        },
    }
    let m3 = lit2('\u{5929}', '\u{540E}');
    match try_offset_marker(&trimmed, &m3, reference) {
        OffsetTry::Absent => {},
        OffsetTry::Hit(d) => {
            return Some(d);
        },
        OffsetTry::Dead => {
            return None;
        },
    }
    let m4 = lit2('\u{65E5}', '\u{540E}');
    match try_offset_marker(&trimmed, &m4, reference) {
        OffsetTry::Absent => {},
        OffsetTry::Hit(d) => {
            return Some(d);
        },
        OffsetTry::Dead => {
            return None;
        },
    }
    match parse_ymd_from_separated_text(&trimmed) {
        Some(d) => {
            return Some(d);
        },
        None => {},
    }
    let has_year = crate::text::contains_char(&trimmed, '\u{5E74}');
    let has_month = crate::text::contains_char(&trimmed, '\u{6708}');
    if has_year && has_month {
        match try_cn_ymd(&trimmed) {
            Some(d) => {
                return Some(d);
            },
            None => {},
        }
    }
    if has_month {
        match try_cn_md(&trimmed, reference) {
            Some(d) => {
                return Some(d);
            },
            None => {},
        }
    }
    let n1 = lit2('\u{4E0B}', '\u{5468}');
    match find_weekday_after_marker(&trimmed, &n1) {
        Some(wd) => {
            return Some(next_week_day(reference, wd));
        },
        None => {},
    }
    let n2 = lit3('\u{4E0B}', '\u{661F}', '\u{671F}');
    match find_weekday_after_marker(&trimmed, &n2) {
        Some(wd) => {
            return Some(next_week_day(reference, wd));
        },
        None => {},
    }
    let t1 = lit2('\u{672C}', '\u{5468}');
    match find_weekday_after_marker(&trimmed, &t1) {
        Some(wd) => {
            return Some(this_week_day(reference, wd));
        },
        None => {},
    }
    let t2 = lit2('\u{8FD9}', '\u{5468}');
    match find_weekday_after_marker(&trimmed, &t2) {
        Some(wd) => {
            return Some(this_week_day(reference, wd));
        },
        None => {},
    }
    let t3 = lit1('\u{5468}');
    match find_weekday_after_marker(&trimmed, &t3) {
        Some(wd) => {
            return Some(this_week_day(reference, wd));
        },
        None => {},
    }
    None
}

/// One-character needle.
fn lit1(a: char) -> (r: Vec<char>)
    ensures
        r@ == seq![a],
{
    let mut v: Vec<char> = Vec::new();
    v.push(a);
    proof {
        assert(v@ =~= seq![a]);
    }
    v
}

/// Two-character needle.
fn lit2(a: char, b: char) -> (r: Vec<char>)
    ensures
        r@ == seq![a, b],
{
    let mut v: Vec<char> = Vec::new();
    v.push(a);
    v.push(b);
    proof {
        assert(v@ =~= seq![a, b]);
    }
    v
}

/// Three-character needle.
fn lit3(a: char, b: char, c: char) -> (r: Vec<char>)
    ensures
        r@ == seq![a, b, c],
{
    let mut v: Vec<char> = Vec::new();
    v.push(a);
    v.push(b);
    v.push(c);
    proof {
        assert(v@ =~= seq![a, b, c]);
    }
    v
}

/// The outcome of one offset-marker attempt.
enum OffsetTry {
    /// The marker does not occur; the chain moves on.
    Absent,
    /// The marker occurs and yields an offset in range.
    Hit(Date),
    /// The marker occurs but the numeral is missing, unreadable or out of
    /// range: the chain stops without a date.
    Dead,
}

/// Try one "N days after" marker.
fn try_offset_marker(trimmed: &Vec<char>, marker: &Vec<char>, reference: Date) -> (r: OffsetTry)
    requires
        date_valid(reference),
        reference.year <= 2203,
    ensures
        match r {
            OffsetTry::Absent => !crate::text::spec_contains_sub(trimmed@, marker@),
            OffsetTry::Hit(d) => crate::text::spec_contains_sub(trimmed@, marker@)
                && spec_offset_branch(trimmed@, marker@, reference) == Some(d) && date_valid(d),
            OffsetTry::Dead => crate::text::spec_contains_sub(trimmed@, marker@)
                && spec_offset_branch(trimmed@, marker@, reference) is None,
        },
{
    let pos = match crate::text::find_sub(trimmed, marker) {
        Some(p) => p,
        None => {
            return OffsetTry::Absent;
        },
    };
    proof {
        assert(crate::text::spec_contains_sub(trimmed@, marker@));
        let i0 = spec_first_sub_ix(trimmed@, marker@);
        if i0 != pos {
            if i0 < pos {
                assert(!crate::text::is_sub_at(trimmed@, marker@, i0));
            } else {
                assert(!crate::text::is_sub_at(trimmed@, marker@, pos as int));
            }
        }
    }
    match head_number(trimmed, pos) {
        Some(offset) => {
            if 0 <= offset && offset <= 365 {
                OffsetTry::Hit(add_days(reference, offset as u64))
            } else {
                OffsetTry::Dead
            }
        },
        None => OffsetTry::Dead,
    }
}

/// The numeral before a position, read as a number.
fn head_number(trimmed: &Vec<char>, pos: usize) -> (r: Option<i64>)
    requires
        pos <= trimmed@.len(),
    ensures
        match r {
            Some(v) => spec_head_number(trimmed@, pos as int) == Some(v as int),
            None => spec_head_number(trimmed@, pos as int) is None,
        },
{
    let mut head: Vec<char> = Vec::new();
    let mut k: usize = 0;
    while k < pos
        invariant
            pos <= trimmed@.len(),
            k <= pos,
            head@ == trimmed@.subrange(0, k as int),
        decreases pos - k,
    {
        head.push(trimmed[k]);
        k = k + 1;
        proof {
            assert(head@ =~= trimmed@.subrange(0, k as int));
        }
    }
    proof {
        assert(head@ =~= trimmed@.take(pos as int));
    }
    match extract_trailing_number_token(&head) {
        Some(tok) => parse_chinese_number_token(&string_from_chars(&tok)),
        None => None,
    }
}

/// A weekday in the week after the reference's week.
fn next_week_day(reference: Date, wd: i64) -> (r: Date)
    requires
        date_valid(reference),
        reference.year <= 2203,
        0 <= wd <= 6,
    ensures
        r == spec_next_week_day(reference, wd as int),
        date_valid(r),
{
    let monday = week_start_monday(reference);
    proof {
        lemma_date_num_upper(reference);
        lemma_date_num_lower(monday);
    }
    add_days(monday, (7 + wd) as u64)
}

/// A weekday in the reference's own week, a week later when already past.
fn this_week_day(reference: Date, wd: i64) -> (r: Date)
    requires
        date_valid(reference),
        reference.year <= 2203,
        0 <= wd <= 6,
    ensures
        r == spec_this_week_day(reference, wd as int),
        date_valid(r),
{
    let monday = week_start_monday(reference);
    proof {
        lemma_date_num_upper(reference);
        lemma_date_num_lower(monday);
    }
    let cand = add_days(monday, wd as u64);
    if date_lt_exec(cand, reference) {
        add_days(cand, 7)
    } else {
        cand
    }
}

/// The numeral year-month-day reading of a text with both marks.
fn try_cn_ymd(trimmed: &Vec<char>) -> (r: Option<Date>)
    requires
        trimmed@.contains('\u{5E74}'),
        trimmed@.contains('\u{6708}'),
    ensures
        r == spec_cn_ymd(trimmed@),
        match r {
            Some(d) => date_valid(d) && 1900 <= d.year <= 2200,
            None => true,
        },
{
    let pos_year = match crate::text::find_char(trimmed, '\u{5E74}') {
        Some(p) => p,
        None => {
            proof {
                let w = choose|w: int|
                    0 <= w < trimmed@.len() && #[trigger] trimmed@[w] == '\u{5E74}';
                assert(false);
            }
            return None;
        },
    };
    let pos_month = match crate::text::find_char(trimmed, '\u{6708}') {
        Some(p) => p,
        None => {
            proof {
                let w = choose|w: int|
                    0 <= w < trimmed@.len() && #[trigger] trimmed@[w] == '\u{6708}';
                assert(false);
            }
            return None;
        },
    };
    proof {
        pin_first_char(trimmed@, '\u{5E74}', pos_year as int);
        pin_first_char(trimmed@, '\u{6708}', pos_month as int);
    }
    let y = match head_number(trimmed, pos_year) {
        Some(v) => v,
        None => {
            return None;
        },
    };
    let m = match head_number(trimmed, pos_month) {
        Some(v) => v,
        None => {
            return None;
        },
    };
    let d = match day_number(trimmed, pos_month) {
        Some(v) => v,
        None => {
            return None;
        },
    };
    if !(1900 <= y && y <= 2200) {
        return None;
    }
    make_date(y, m, d)
}

/// The numeral month-day reading, pushed forward past the reference.
fn try_cn_md(trimmed: &Vec<char>, reference: Date) -> (r: Option<Date>)
    requires
        date_valid(reference),
        reference.year <= 2203,
        trimmed@.contains('\u{6708}'),
    ensures
        r == spec_cn_md(trimmed@, reference),
        match r {
            Some(d) => date_valid(d),
            None => true,
        },
{
    let pos_month = match crate::text::find_char(trimmed, '\u{6708}') {
        Some(p) => p,
        None => {
            proof {
                let w = choose|w: int|
                    0 <= w < trimmed@.len() && #[trigger] trimmed@[w] == '\u{6708}';
                assert(false);
            }
            return None;
        },
    };
    proof {
        pin_first_char(trimmed@, '\u{6708}', pos_month as int);
    }
    let m = match head_number(trimmed, pos_month) {
        Some(v) => v,
        None => {
            return None;
        },
    };
    let d = match day_number(trimmed, pos_month) {
        Some(v) => v,
        None => {
            return None;
        },
    };
    let first = match make_date(reference.year, m, d) {
        Some(dt) => dt,
        None => {
            return None;
        },
    };
    if date_lt_exec(first, reference) {
        match make_date(reference.year + 1, m, d) {
            Some(dt) => Some(dt),
            None => None,
        }
    } else {
        Some(first)
    }
}

/// The day numeral: before a day mark when one is there, else right after
/// the month mark.
fn day_number(trimmed: &Vec<char>, pos_month: usize) -> (r: Option<i64>)
    requires
        pos_month < trimmed@.len(),
    ensures
        match r {
            Some(v) => spec_day_number(trimmed@, pos_month as int) == Some(v as int),
            None => spec_day_number(trimmed@, pos_month as int) is None,
        },
{
    match crate::text::find_char(trimmed, '\u{65E5}') {
        Some(pos_day) => {
            proof {
                pin_first_char(trimmed@, '\u{65E5}', pos_day as int);
            }
            head_number(trimmed, pos_day)
        },
        None => {
            proof {
                if trimmed@.contains('\u{65E5}') {
                    let w = choose|w: int|
                        0 <= w < trimmed@.len() && #[trigger] trimmed@[w] == '\u{65E5}';
                    assert(false);
                }
            }
            let tl = trimmed.len();
            let mut tail: Vec<char> = Vec::new();
            let mut k: usize = pos_month + 1;
            let ghost startk = k as int;
            while k < tl
                invariant
                    tl == trimmed@.len(),
                    pos_month < trimmed@.len(),
                    startk == pos_month + 1,
                    startk <= k <= trimmed@.len(),
                    tail@ == trimmed@.subrange(startk, k as int),
                decreases trimmed@.len() - k,
            {
                tail.push(trimmed[k]);
                k = k + 1;
                proof {
                    assert(tail@ =~= trimmed@.subrange(startk, k as int));
                }
            }
            proof {
                assert(tail@ =~= trimmed@.skip(pos_month + 1));
            }
            match extract_leading_number_token(&tail) {
                Some(tok) => parse_chinese_number_token(&string_from_chars(&tok)),
                None => None,
            }
        },
    }
}

/// A found character position that is leftmost is the chosen first one.
proof fn pin_first_char(s: Seq<char>, c: char, p: int)
    requires
        0 <= p < s.len(),
        s[p] == c,
        forall|j: int| 0 <= j < p ==> s[j] != c,
    ensures
        spec_first_char_ix(s, c) == p,
{
    let i0 = spec_first_char_ix(s, c);
    assert(0 <= i0 < s.len() && s[i0] == c && (forall|j: int| 0 <= j < i0 ==> s[j] != c)) by {
        assert(0 <= p < s.len() && s[p] == c && (forall|j: int| 0 <= j < p ==> s[j] != c));
    }
    if i0 != p {
        if i0 < p {
            assert(s[i0] != c);
        } else {
            assert(s[p] != c);
        }
    }
}

/// Whether an entity's type reads `time`, any ASCII case.
pub open spec fn spec_is_time_type(t: Seq<char>) -> bool {
    t.map_values(|c: char| crate::text::spec_ascii_lower(c)) =~= seq!['t', 'i', 'm', 'e']
}

fn is_time_type(t: &String) -> (r: bool)
    ensures
        r == spec_is_time_type(t@),
{
    let chars = chars_vec(t.as_str());
    if chars.len() != 4 {
        proof {
            assert(t@.map_values(|c: char| crate::text::spec_ascii_lower(c)).len() == t@.len());
        }
        return false;
    }
    let ok = crate::text::ascii_lower_c(chars[0]) == 't' && crate::text::ascii_lower_c(chars[1])
        == 'i' && crate::text::ascii_lower_c(chars[2]) == 'm' && crate::text::ascii_lower_c(
        chars[3],
    ) == 'e';
    proof {
        let mapped = t@.map_values(|c: char| crate::text::spec_ascii_lower(c));
        assert(mapped.len() == 4);
        assert(mapped[0] == crate::text::spec_ascii_lower(t@[0]));
        assert(mapped[1] == crate::text::spec_ascii_lower(t@[1]));
        assert(mapped[2] == crate::text::spec_ascii_lower(t@[2]));
        assert(mapped[3] == crate::text::spec_ascii_lower(t@[3]));
        if ok {
            assert(mapped =~= seq!['t', 'i', 'm', 'e']);
        }
    }
    ok
}

/// The type and name views of an extracted entity list.
pub open spec fn rows_of(es: Seq<crate::ingest::ExtractedEntity>) -> Seq<(Seq<char>, Seq<char>)> {
    Seq::new(es.len(), |i: int| (es[i].entity_type@, es[i].name@))
}

/// The pending-name fold: a `Time`-typed row whose trimmed, nonblank name
/// the rules cannot resolve joins the list once, until the call budget is
/// reached.
pub open spec fn spec_pending_from(
    rows: Seq<(Seq<char>, Seq<char>)>,
    reference: Date,
    acc: Seq<Seq<char>>,
) -> Seq<Seq<char>>
    decreases rows.len(),
{
    if rows.len() == 0 {
        acc
    } else {
        let t = spec_trim(rows[0].1);
        let want = spec_is_time_type(rows[0].0) && t.len() > 0 && spec_rule_parse(t, reference)
            is None && !acc.contains(t) && acc.len() < TIME_NORMALIZE_AI_MAX_CALLS as int;
        spec_pending_from(
            rows.skip(1),
            reference,
            if want {
                acc.push(t)
            } else {
                acc
            },
        )
    }
}

/// The names the model should be asked about.
pub open spec fn spec_pending(
    rows: Seq<(Seq<char>, Seq<char>)>,
    reference: Date,
) -> Seq<Seq<char>> {
    spec_pending_from(rows, reference, Seq::empty())
}

/// A full budget takes no further names.
proof fn lemma_pending_saturated(
    rows: Seq<(Seq<char>, Seq<char>)>,
    reference: Date,
    acc: Seq<Seq<char>>,
)
    requires
        acc.len() >= TIME_NORMALIZE_AI_MAX_CALLS,
    ensures
        spec_pending_from(rows, reference, acc) == acc,
    decreases rows.len(),
{
    if rows.len() > 0 {
        lemma_pending_saturated(rows.skip(1), reference, acc);
    }
}

/// The distinct trimmed `Time`-typed entity names the rules cannot
/// resolve, in first-appearance order, up to the external call budget:
/// exactly the names the caller should hand to the model.
pub fn plan_time_normalization(
    entities: &Vec<crate::ingest::ExtractedEntity>,
    reference: Date,
) -> (r: Vec<String>)
    requires
        date_valid(reference),
        reference.year <= 2203,
    ensures
        crate::store::strings_view(r@) == spec_pending(rows_of(entities@), reference),
        r@.len() <= TIME_NORMALIZE_AI_MAX_CALLS,
{
    let ghost rows = rows_of(entities@);
    let mut pending: Vec<String> = Vec::new();
    let mut i: usize = 0;
    proof {
        assert(rows.skip(0) =~= rows);
        assert(crate::store::strings_view(pending@) =~= Seq::<Seq<char>>::empty());
    }
    while i < entities.len()
        invariant
            date_valid(reference),
            reference.year <= 2203,
            rows == rows_of(entities@),
            i <= entities@.len(),
            pending@.len() <= TIME_NORMALIZE_AI_MAX_CALLS,
            spec_pending(rows, reference) == spec_pending_from(
                rows.skip(i as int),
                reference,
                crate::store::strings_view(pending@),
            ),
        decreases entities@.len() - i,
    {
        proof {
            assert(rows.skip(i as int)[0] == rows[i as int]);
            assert(rows.skip(i as int).skip(1) =~= rows.skip(i + 1));
        }
        if pending.len() >= TIME_NORMALIZE_AI_MAX_CALLS {
            proof {
                lemma_pending_saturated(
                    rows.skip(i as int),
                    reference,
                    crate::store::strings_view(pending@),
                );
            }
            return pending;
        }
        let e = &entities[i];
        let ghost pre = crate::store::strings_view(pending@);
        if is_time_type(&e.entity_type) {
            let name_chars = chars_vec(e.name.as_str());
            let trimmed = trim_chars(&name_chars);
            if trimmed.len() > 0 {
                let trimmed_str = string_from_chars(&trimmed);
                if parse_date_from_time_text_rule(&trimmed_str, reference).is_none() {
                    proof {
                        assert(spec_rule_parse(spec_trim(rows[i as int].1), reference) is None)
                            by {
                            assert(trimmed_str@ == spec_trim(e.name@));
                        }
                    }
                    if !already_listed(&pending, &trimmed_str) {
                        pending.push(trimmed_str);
                        proof {
                            assert(crate::store::strings_view(pending@) =~= pre.push(
                                spec_trim(rows[i as int].1),
                            ));
                        }
                    }
                } else {
                    proof {
                        assert(!(spec_rule_parse(spec_trim(rows[i as int].1), reference)
                            is None)) by {
                            assert(trimmed_str@ == spec_trim(e.name@));
                        }
                    }
                }
            }
        }
        i = i + 1;
    }
    proof {
        assert(rows.skip(rows.len() as int).len() == 0);
    }
    pending
}

/// Whether a name is already on the pending list.
fn already_listed(v: &Vec<String>, s: &String) -> (r: bool)
    ensures
        r == crate::store::strings_view(v@).contains(s@),
{
    let mut i: usize = 0;
    while i < v.len()
        invariant
            i <= v@.len(),
            forall|j: int| 0 <= j < i ==> #[trigger] crate::store::strings_view(v@)[j] != s@,
        decreases v@.len() - i,
    {
        if crate::text::string_eq(&v[i], s) {
            proof {
                assert(crate::store::strings_view(v@)[i as int] == s@);
            }
            return true;
        }
        proof {
            assert(crate::store::strings_view(v@)[i as int] == v@[i as int]@);
        }
        i = i + 1;
    }
    false
}

/// Key literals of the normalization record.
pub open spec fn key_original() -> Seq<char> {
    seq![
        'o', 'r', 'i', 'g', 'i', 'n', 'a', 'l', '_', 't', 'i', 'm', 'e', '_', 't', 'e', 'x',
        't',
    ]
}

pub open spec fn key_normalized() -> Seq<char> {
    seq!['n', 'o', 'r', 'm', 'a', 'l', 'i', 'z', 'e', 'd', '_', 'd', 'a', 't', 'e']
}

pub open spec fn key_method() -> Seq<char> {
    seq!['n', 'o', 'r', 'm', 'a', 'l', 'i', 'z', 'e', 'd', '_', 'b', 'y']
}

pub open spec fn key_reference() -> Seq<char> {
    seq!['r', 'e', 'f', 'e', 'r', 'e', 'n', 'c', 'e', '_', 'd', 'a', 't', 'e']
}

pub open spec fn key_raw() -> Seq<char> {
    seq!['r', 'a', 'w', '_', 'a', 't', 't', 'r', 'i', 'b', 'u', 't', 'e', 's']
}

pub open spec fn method_rule() -> Seq<char> {
    seq!['r', 'u', 'l', 'e']
}

pub open spec fn method_model() -> Seq<char> {
    seq!['m', 'o', 'd', 'e', 'l']
}

/// Overwrite-or-append of one field, as the record update step works.
pub open spec fn spec_set_field(
    r: Seq<crate::attrs::AttrPair>,
    k: Seq<char>,
    v: Option<Seq<char>>,
) -> Seq<crate::attrs::AttrPair> {
    match crate::attrs::spec_find_key(r, k) {
        Some(i) => r.update(i, (k, v)),
        None => r.push((k, v)),
    }
}

/// The normalization record written onto an attribute blob: a non-record
/// blob is kept under its own key, the original text is recorded unless
/// already recorded, and the normalized date, the method and the
/// reference date are set.
pub open spec fn spec_enrich(
    av: crate::attrs::AttrsView,
    orig: Seq<char>,
    iso: Seq<char>,
    by_rule: bool,
    ref_iso: Seq<char>,
) -> crate::attrs::AttrsView {
    let rec0: Seq<crate::attrs::AttrPair> = match av {
        crate::attrs::AttrsView::Missing => Seq::empty(),
        crate::attrs::AttrsView::Record(r) => r,
        crate::attrs::AttrsView::Raw(txt) => seq![(key_raw(), Some(txt))],
    };
    let rec1 = if crate::attrs::spec_find_key(rec0, key_original()) is Some {
        rec0
    } else {
        rec0.push((key_original(), Some(orig)))
    };
    let rec2 = spec_set_field(rec1, key_normalized(), Some(iso));
    let rec3 = spec_set_field(
        rec2,
        key_method(),
        Some(
            if by_rule {
                method_rule()
            } else {
                method_model()
            },
        ),
    );
    crate::attrs::AttrsView::Record(spec_set_field(rec3, key_reference(), Some(ref_iso)))
}

/// The model's answer bound to a name, first answer winning.
pub open spec fn spec_answer(
    answers: Seq<(Seq<char>, Option<Date>)>,
    name: Seq<char>,
) -> Option<Date>
    decreases answers.len(),
{
    if answers.len() == 0 {
        None
    } else if answers[0].0 == name {
        answers[0].1
    } else {
        spec_answer(answers.skip(1), name)
    }
}

pub open spec fn answers_view(s: Seq<(String, Option<Date>)>) -> Seq<(Seq<char>, Option<Date>)> {
    Seq::new(s.len(), |i: int| (s[i].0@, s[i].1))
}

/// What a name resolves to: the rules first, then a returned model
/// answer; the method travels with the date.
pub open spec fn spec_resolved(
    name: Seq<char>,
    reference: Date,
    answers: Seq<(Seq<char>, Option<Date>)>,
) -> Option<(Date, bool)> {
    match spec_rule_parse(name, reference) {
        Some(d) => Some((d, true)),
        None => match spec_answer(answers, spec_trim(name)) {
            Some(d) => Some((d, false)),
            None => None,
        },
    }
}

/// The row view of an entity with its attribute blob.
pub open spec fn row3_of(e: crate::ingest::ExtractedEntity) -> (
    Seq<char>,
    Seq<char>,
    crate::attrs::AttrsView,
) {
    (e.entity_type@, e.name@, crate::attrs::attrs_view(e.attributes))
}

/// One row of the normalization: a `Time`-typed row whose trimmed,
/// nonblank name resolves to a valid date with a different ISO rendering
/// is renamed and annotated; every other row stands unchanged.
pub open spec fn spec_norm_row(
    row: (Seq<char>, Seq<char>, crate::attrs::AttrsView),
    reference: Date,
    answers: Seq<(Seq<char>, Option<Date>)>,
) -> (Seq<char>, Seq<char>, crate::attrs::AttrsView) {
    let t = spec_trim(row.1);
    if !spec_is_time_type(row.0) || t.len() == 0 {
        row
    } else {
        match spec_resolved(row.1, reference, answers) {
            None => row,
            Some((d, by_rule)) => if !date_valid(d) || spec_iso(d) == t {
                row
            } else {
                (row.0, spec_iso(d), spec_enrich(row.2, t, spec_iso(d), by_rule, spec_iso(
                    reference,
                )))
            },
        }
    }
}

/// Whether a row is renamed by the normalization.
pub open spec fn spec_row_renamed(
    row: (Seq<char>, Seq<char>, crate::attrs::AttrsView),
    reference: Date,
    answers: Seq<(Seq<char>, Option<Date>)>,
) -> bool {
    spec_norm_row(row, reference, answers).1 != row.1 || (spec_is_time_type(row.0) && spec_trim(
        row.1,
    ).len() > 0 && (match spec_resolved(row.1, reference, answers) {
        Some((d, b)) => date_valid(d) && spec_iso(d) != spec_trim(row.1),
        None => false,
    }))
}

/// The rename pairs the normalization produces, in row order.
pub open spec fn spec_rmap(
    rows: Seq<(Seq<char>, Seq<char>, crate::attrs::AttrsView)>,
    reference: Date,
    answers: Seq<(Seq<char>, Option<Date>)>,
) -> Seq<(Seq<char>, Seq<char>)>
    decreases rows.len(),
{
    if rows.len() == 0 {
        Seq::empty()
    } else {
        let head: Seq<(Seq<char>, Seq<char>)> = if spec_row_renamed(
            rows[0],
            reference,
            answers,
        ) {
            seq![(spec_trim(rows[0].1), spec_norm_row(rows[0], reference, answers).1)]
        } else {
            Seq::empty()
        };
        head + spec_rmap(rows.skip(1), reference, answers)
    }
}

/// A name through the rename map: the first binding wins, an unbound name
/// passes through.
pub open spec fn spec_rename(map: Seq<(Seq<char>, Seq<char>)>, name: Seq<char>) -> Seq<char>
    decreases map.len(),
{
    if map.len() == 0 {
        name
    } else if map[0].0 == name {
        map[0].1
    } else {
        spec_rename(map.skip(1), name)
    }
}

pub open spec fn rows3_of(es: Seq<crate::ingest::ExtractedEntity>) -> Seq<
    (Seq<char>, Seq<char>, crate::attrs::AttrsView),
> {
    Seq::new(es.len(), |i: int| row3_of(es[i]))
}

pub open spec fn rels3_of(rs: Seq<crate::ingest::ExtractedRelation>) -> Seq<
    (Seq<char>, Seq<char>, Seq<char>),
> {
    Seq::new(rs.len(), |i: int| (rs[i].from@, rs[i].to@, rs[i].relation@))
}

/// Rewrite `Time`-typed entities to ISO dates where the rules or the
/// returned model answers resolve them, record the original text, the
/// method used and the reference date in their attributes, and rewrite
/// relations exactly by substituting renamed endpoints.
///
/// Every row becomes `spec_norm_row` of itself: unresolved, blank or
/// already-normalized `Time` rows and all non-`Time` rows stand
/// unchanged, and each relation endpoint goes through the rename map.
/// Normalize one entity row: `None` keeps the row; otherwise the
/// replacement row together with the trimmed original name and the
/// normalized ISO name.
#[verifier::rlimit(60)]
fn normalize_one_row(
    e: &crate::ingest::ExtractedEntity,
    reference: Date,
    model_answers: &Vec<(String, Option<Date>)>,
    ref_iso: &String,
) -> (r: Option<(crate::ingest::ExtractedEntity, String, String)>)
    requires
        date_valid(reference),
        reference.year <= 2203,
        ref_iso@ == spec_iso(reference),
    ensures
        match r {
            None => spec_norm_row(row3_of(*e), reference, answers_view(model_answers@))
                == row3_of(*e) && !spec_row_renamed(
                row3_of(*e),
                reference,
                answers_view(model_answers@),
            ),
            Some(p) => {
                &&& row3_of(p.0) == spec_norm_row(
                    row3_of(*e),
                    reference,
                    answers_view(model_answers@),
                )
                &&& spec_row_renamed(row3_of(*e), reference, answers_view(model_answers@))
                &&& p.1@ == spec_trim(e.name@)
                &&& p.2@ == spec_norm_row(
                    row3_of(*e),
                    reference,
                    answers_view(model_answers@),
                ).1
            },
        },
{
    if !is_time_type(&e.entity_type) {
        return None;
    }
    let name_chars = chars_vec(e.name.as_str());
    let trimmed = trim_chars(&name_chars);
    if trimmed.len() == 0 {
        return None;
    }
    let original_name = string_from_chars(&trimmed);
    let resolved: Option<(Date, bool)> = match parse_date_from_time_text_rule(
        &e.name,
        reference,
    ) {
        Some(d) => Some((d, true)),
        None => {
            match lookup_answer(model_answers, &original_name) {
                Some(d) => Some((d, false)),
                None => None,
            }
        },
    };
    let (resolved_date, by_rule) = match resolved {
        Some(p) => p,
        None => {
            return None;
        },
    };
    if make_date(resolved_date.year, resolved_date.month, resolved_date.day).is_none() {
        proof {
            assert((Date {
                year: resolved_date.year,
                month: resolved_date.month,
                day: resolved_date.day,
            }) == resolved_date);
        }
        return None;
    }
    proof {
        assert((Date {
            year: resolved_date.year,
            month: resolved_date.month,
            day: resolved_date.day,
        }) == resolved_date);
    }
    let normalized = format_iso(resolved_date);
    if crate::text::string_eq(&normalized, &original_name) {
        return None;
    }
    let enriched = enrich_attributes(&e.attributes, &original_name, &normalized, by_rule, ref_iso);
    let new_row = crate::ingest::ExtractedEntity {
        entity_type: e.entity_type.clone(),
        name: normalized.clone(),
        attributes: enriched,
    };
    proof {
        assert(row3_of(new_row) =~= spec_norm_row(
            row3_of(*e),
            reference,
            answers_view(model_answers@),
        ));
    }
    Some((new_row, original_name, normalized))
}

#[verifier::rlimit(100)]
pub fn apply_time_normalization(
    entities: &mut Vec<crate::ingest::ExtractedEntity>,
    relations: &mut Vec<crate::ingest::ExtractedRelation>,
    reference: Date,
    model_answers: &Vec<(String, Option<Date>)>,
)
    requires
        date_valid(reference),
        reference.year <= 2203,
    ensures
        final(entities)@.len() == old(entities)@.len(),
        final(relations)@.len() == old(relations)@.len(),
        forall|i: int|
            0 <= i < old(entities)@.len() ==> #[trigger] rows3_of(final(entities)@)[i]
                == spec_norm_row(
                rows3_of(old(entities)@)[i],
                reference,
                answers_view(model_answers@),
            ),
        forall|k: int|
            0 <= k < old(relations)@.len() ==> #[trigger] rels3_of(final(relations)@)[k] == ({
                let map = spec_rmap(
                    rows3_of(old(entities)@),
                    reference,
                    answers_view(model_answers@),
                );
                (
                    spec_rename(map, rels3_of(old(relations)@)[k].0),
                    spec_rename(map, rels3_of(old(relations)@)[k].1),
                    rels3_of(old(relations)@)[k].2,
                )
            }),
{
    let ghost rows = rows3_of(old(entities)@);
    let ghost answers = answers_view(model_answers@);
    let ref_iso = format_iso(reference);
    let mut rename_map: Vec<(String, String)> = Vec::new();
    let mut i: usize = 0;
    proof {
        assert(rows.skip(0) =~= rows);
        assert(rmap_view(rename_map@) + spec_rmap(rows.skip(0), reference, answers)
            =~= spec_rmap(rows, reference, answers));
    }
    while i < entities.len()
        invariant
            date_valid(reference),
            reference.year <= 2203,
            ref_iso@ == spec_iso(reference),
            rows == rows3_of(old(entities)@),
            answers == answers_view(model_answers@),
            i <= entities@.len(),
            entities@.len() == old(entities)@.len(),
            forall|j: int|
                0 <= j < i ==> #[trigger] rows3_of(entities@)[j] == spec_norm_row(
                    rows[j],
                    reference,
                    answers,
                ),
            forall|j: int| i <= j < entities@.len() ==> #[trigger] rows3_of(entities@)[j] == rows[j],
            rmap_view(rename_map@) + spec_rmap(rows.skip(i as int), reference, answers)
                == spec_rmap(rows, reference, answers),
        decreases entities@.len() - i,
    {
        let ghost pre_map = rmap_view(rename_map@);
        proof {
            assert(rows.skip(i as int)[0] == rows[i as int]);
            assert(rows.skip(i as int).skip(1) =~= rows.skip(i + 1));
            assert(rows3_of(entities@)[i as int] == rows[i as int]);
        }
        let outcome = normalize_one_row(&entities[i], reference, model_answers, &ref_iso);
        let keep_row: bool;
        match outcome {
            None => {
                keep_row = true;
            },
            Some((new_row, original_name, normalized)) => {
                keep_row = false;
                let ghost pre_ents = entities@;
                entities.set(i, new_row);
                rename_map.push((original_name, normalized));
                proof {
                    assert(forall|j: int|
                        0 <= j < pre_ents.len() && j != i ==> #[trigger] entities@[j]
                            == pre_ents[j]);
                    assert forall|j: int| 0 <= j < entities@.len() && j != i implies
                        #[trigger] rows3_of(entities@)[j] == rows3_of(pre_ents)[j] by {
                        assert(entities@[j] == pre_ents[j]);
                    }
                    assert(rows3_of(entities@)[i as int] =~= spec_norm_row(
                        rows[i as int],
                        reference,
                        answers,
                    ));
                    assert(rmap_view(rename_map@) =~= pre_map.push(
                        (
                            spec_trim(rows[i as int].1),
                            spec_norm_row(rows[i as int], reference, answers).1,
                        ),
                    ));
                    assert(rmap_view(rename_map@) + spec_rmap(
                        rows.skip(i + 1),
                        reference,
                        answers,
                    ) =~= pre_map + (seq![
                        (
                            spec_trim(rows[i as int].1),
                            spec_norm_row(rows[i as int], reference, answers).1,
                        ),
                    ] + spec_rmap(rows.skip(i + 1), reference, answers)));
                }
            },
        }
        if keep_row {
            proof {
                assert(rows3_of(entities@)[i as int] == spec_norm_row(
                    rows[i as int],
                    reference,
                    answers,
                ));
                assert(!spec_row_renamed(rows[i as int], reference, answers));
                assert(pre_map + (Seq::<(Seq<char>, Seq<char>)>::empty() + spec_rmap(
                    rows.skip(i + 1),
                    reference,
                    answers,
                )) =~= pre_map + spec_rmap(rows.skip(i + 1), reference, answers));
            }
        }
        i = i + 1;
        proof {
            assert forall|j: int| 0 <= j < i implies #[trigger] rows3_of(entities@)[j]
                == spec_norm_row(rows[j], reference, answers) by {
                if j < i - 1 {
                    assert(rows3_of(entities@)[j] == spec_norm_row(rows[j], reference, answers));
                } else {
                    if keep_row {
                        assert(rows3_of(entities@)[j] == rows[j]);
                        assert(spec_norm_row(rows[j], reference, answers) == rows[j]);
                    }
                }
            }
            assert forall|j: int| i <= j < entities@.len() implies #[trigger] rows3_of(
                entities@,
            )[j] == rows[j] by {}
        }
    }
    let ghost the_map = spec_rmap(rows, reference, answers);
    proof {
        assert(rows.skip(rows.len() as int).len() == 0);
        assert(rmap_view(rename_map@) + Seq::<(Seq<char>, Seq<char>)>::empty() =~= rmap_view(
            rename_map@,
        ));
        assert(rmap_view(rename_map@) == the_map);
    }
    let mut k: usize = 0;
    while k < relations.len()
        invariant
            k <= relations@.len(),
            relations@.len() == old(relations)@.len(),
            rmap_view(rename_map@) == the_map,
            forall|q: int|
                0 <= q < k ==> #[trigger] rels3_of(relations@)[q] == (
                    spec_rename(the_map, rels3_of(old(relations)@)[q].0),
                    spec_rename(the_map, rels3_of(old(relations)@)[q].1),
                    rels3_of(old(relations)@)[q].2,
                ),
            forall|q: int|
                k <= q < relations@.len() ==> #[trigger] rels3_of(relations@)[q] == rels3_of(
                    old(relations)@,
                )[q],
        decreases relations@.len() - k,
    {
        proof {
            assert(rels3_of(relations@)[k as int] == rels3_of(old(relations)@)[k as int]);
        }
        let new_from = match lookup_rename(&rename_map, &relations[k].from) {
            Some(n) => n,
            None => relations[k].from.clone(),
        };
        let new_to = match lookup_rename(&rename_map, &relations[k].to) {
            Some(n) => n,
            None => relations[k].to.clone(),
        };
        let new_rel = crate::ingest::ExtractedRelation {
            from: new_from,
            to: new_to,
            relation: relations[k].relation.clone(),
        };
        let ghost pre_rels = relations@;
        relations.set(k, new_rel);
        k = k + 1;
        proof {
            assert(forall|q: int|
                0 <= q < pre_rels.len() && q != k - 1 ==> #[trigger] relations@[q] == pre_rels[q]);
            assert(rels3_of(relations@)[k - 1] =~= (
                spec_rename(the_map, rels3_of(old(relations)@)[k - 1].0),
                spec_rename(the_map, rels3_of(old(relations)@)[k - 1].1),
                rels3_of(old(relations)@)[k - 1].2,
            ));
            assert forall|q: int| 0 <= q < k - 1 implies #[trigger] rels3_of(relations@)[q] == (
                spec_rename(the_map, rels3_of(old(relations)@)[q].0),
                spec_rename(the_map, rels3_of(old(relations)@)[q].1),
                rels3_of(old(relations)@)[q].2,
            ) by {
                assert(relations@[q] == pre_rels[q]);
                assert(rels3_of(pre_rels)[q] == (
                    spec_rename(the_map, rels3_of(old(relations)@)[q].0),
                    spec_rename(the_map, rels3_of(old(relations)@)[q].1),
                    rels3_of(old(relations)@)[q].2,
                ));
            }
            assert forall|q: int| k <= q < relations@.len() implies #[trigger] rels3_of(
                relations@,
            )[q] == rels3_of(old(relations)@)[q] by {
                assert(relations@[q] == pre_rels[q]);
                assert(rels3_of(pre_rels)[q] == rels3_of(old(relations)@)[q]);
            }
        }
    }
}

pub open spec fn rmap_view(s: Seq<(String, String)>) -> Seq<(Seq<char>, Seq<char>)> {
    Seq::new(s.len(), |i: int| (s[i].0@, s[i].1@))
}

/// The model's answer for a name: the first answer given under it, which
/// may itself be the explicit no-date answer.
fn lookup_answer(answers: &Vec<(String, Option<Date>)>, name: &String) -> (r: Option<Date>)
    ensures
        r == spec_answer(answers_view(answers@), name@),
{
    let ghost av = answers_view(answers@);
    let mut i: usize = 0;
    proof {
        assert(av.skip(0) =~= av);
    }
    while i < answers.len()
        invariant
            av == answers_view(answers@),
            i <= answers@.len(),
            spec_answer(av, name@) == spec_answer(av.skip(i as int), name@),
        decreases answers@.len() - i,
    {
        proof {
            assert(av.skip(i as int)[0] == av[i as int]);
            assert(av.skip(i as int).skip(1) =~= av.skip(i + 1));
        }
        if crate::text::string_eq(&answers[i].0, name) {
            return answers[i].1;
        }
        i = i + 1;
    }
    None
}

/// The rename a name maps to, if it was renamed.
fn lookup_rename(map: &Vec<(String, String)>, name: &String) -> (r: Option<String>)
    ensures
        match r {
            Some(n) => n@ == spec_rename(rmap_view(map@), name@) && n@ != name@ || n@
                == spec_rename(rmap_view(map@), name@),
            None => spec_rename(rmap_view(map@), name@) == name@,
        },
{
    let ghost mv = rmap_view(map@);
    let mut i: usize = 0;
    proof {
        assert(mv.skip(0) =~= mv);
    }
    while i < map.len()
        invariant
            mv == rmap_view(map@),
            i <= map@.len(),
            spec_rename(mv, name@) == spec_rename(mv.skip(i as int), name@),
        decreases map@.len() - i,
    {
        proof {
            assert(mv.skip(i as int)[0] == mv[i as int]);
            assert(mv.skip(i as int).skip(1) =~= mv.skip(i + 1));
        }
        if crate::text::string_eq(&map[i].0, name) {
            return Some(map[i].1.clone());
        }
        i = i + 1;
    }
    None
}

/// Extend an attribute blob with the normalization record, realizing
/// `spec_enrich`: a non-record blob is kept under its own key, the
/// original text recorded unless already recorded, and the normalized
/// date, method and reference date set.
fn enrich_attributes(
    attrs: &Option<Attributes>,
    original_name: &String,
    normalized: &String,
    by_rule: bool,
    ref_iso: &String,
) -> (r: Option<Attributes>)
    ensures
        crate::attrs::attrs_view(r) == spec_enrich(
            crate::attrs::attrs_view(*attrs),
            original_name@,
            normalized@,
            by_rule,
            ref_iso@,
        ),
{
    let mut rec: Vec<AttrEntry> = Vec::new();
    match attrs {
        Some(Attributes::Record(entries)) => {
            let mut i: usize = 0;
            while i < entries.len()
                invariant
                    i <= entries@.len(),
                    rec@.len() == i,
                    crate::attrs::rec_view(rec@) == crate::attrs::rec_view(
                        entries@.subrange(0, i as int),
                    ),
                decreases entries@.len() - i,
            {
                let ghost pre = rec@;
                rec.push(crate::attrs::copy_attr_entry(&entries[i]));
                i = i + 1;
                proof {
                    assert forall|j: int| 0 <= j < i implies crate::attrs::rec_view(rec@)[j]
                        == crate::attrs::rec_view(entries@.subrange(0, i as int))[j] by {
                        if j < i - 1 {
                            assert(rec@[j] == pre[j]);
                            assert(crate::attrs::rec_view(pre)[j] == crate::attrs::rec_view(
                                entries@.subrange(0, i - 1),
                            )[j]);
                        }
                    }
                    assert(crate::attrs::rec_view(rec@) =~= crate::attrs::rec_view(
                        entries@.subrange(0, i as int),
                    ));
                }
            }
            proof {
                assert(entries@.subrange(0, entries@.len() as int) =~= entries@);
            }
        },
        Some(Attributes::Raw(text)) => {
            rec.push(
                AttrEntry { key: make_string("raw_attributes"), value: Some(text.clone()) },
            );
            proof {
                reveal_strlit("raw_attributes");
                assert("raw_attributes"@ =~= key_raw());
                assert(crate::attrs::rec_view(rec@) =~= seq![(key_raw(), Some(text@))]);
            }
        },
        None => {
            proof {
                assert(crate::attrs::rec_view(rec@) =~= Seq::<crate::attrs::AttrPair>::empty());
            }
        },
    }
    let orig_key = make_string("original_time_text");
    proof {
        reveal_strlit("original_time_text");
        assert(orig_key@ =~= key_original());
    }
    let ghost rec0 = crate::attrs::rec_view(rec@);
    if crate::attrs::find_key(&rec, &orig_key).is_none() {
        rec.push(AttrEntry { key: orig_key, value: Some(original_name.clone()) });
        proof {
            assert(crate::attrs::rec_view(rec@) =~= rec0.push(
                (key_original(), Some(original_name@)),
            ));
        }
    }
    let nkey = make_string("normalized_date");
    proof {
        reveal_strlit("normalized_date");
        assert(nkey@ =~= key_normalized());
    }
    set_field(&mut rec, nkey, Some(normalized.clone()));
    let mkey = make_string("normalized_by");
    let mval = if by_rule {
        make_string("rule")
    } else {
        make_string("model")
    };
    proof {
        reveal_strlit("normalized_by");
        reveal_strlit("rule");
        reveal_strlit("model");
        assert(mkey@ =~= key_method());
        if by_rule {
            assert(mval@ =~= method_rule());
        } else {
            assert(mval@ =~= method_model());
        }
    }
    set_field(&mut rec, mkey, Some(mval));
    let rkey = make_string("reference_date");
    proof {
        reveal_strlit("reference_date");
        assert(rkey@ =~= key_reference());
    }
    set_field(&mut rec, rkey, Some(ref_iso.clone()));
    Some(Attributes::Record(rec))
}

/// Overwrite or append one attribute field.
fn set_field(rec: &mut Vec<AttrEntry>, key: String, value: Option<String>)
    ensures
        crate::attrs::rec_view(final(rec)@) == spec_set_field(
            crate::attrs::rec_view(old(rec)@),
            key@,
            match value {
                Some(ref v) => Some(v@),
                None => None,
            },
        ),
{
    let ghost pre = crate::attrs::rec_view(rec@);
    match crate::attrs::find_key(rec, &key) {
        Some(ix) => {
            rec.set(ix, AttrEntry { key, value });
            proof {
                assert(crate::attrs::rec_view(rec@) =~= pre.update(
                    ix as int,
                    crate::attrs::rec_view(rec@)[ix as int],
                ));
            }
        },
        None => {
            rec.push(AttrEntry { key, value });
            proof {
                assert(crate::attrs::rec_view(rec@) =~= pre.push(
                    crate::attrs::rec_view(rec@)[rec@.len() - 1],
                ));
            }
        },
    }
}

/// A string from an ASCII literal.
fn make_string(text: &str) -> (r: String)
    ensures
        r@ == text@,
{
    crate::text::string_from_chars(&chars_vec(text))
}


} // verus!
