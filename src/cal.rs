//! Calendar arguments (integers, month names or numbers, years) and the
//! grid of a month.

use crate::decimal::{decimal_digits, pad_left, right_aligned, to_decimal, DecimalInt};
use crate::{quoted, views};
use ansi_term::Style;
use chrono::{Datelike, NaiveDate};
use vstd::prelude::*;
use vstd::string::*;

verus! {

fn message(before: &str, s: &str, after: &str) -> (r: String)
    ensures
        r@ == quoted(before@, s@, after@),
{
    let mut r = String::from_str(before);
    r.append(s);
    r.append(after);
    r
}

/// Parses an integer of any of the types above.
pub fn parse_int<T: DecimalInt>(val: &str) -> (r: Result<T, String>)
    ensures
        match r {
            Ok(v) => T::token_value(val@) == Some(v),
            Err(e) => T::token_value(val@) is None && e@ == quoted(
                "Invalid integer \""@,
                val@,
                "\""@,
            ),
        },
{
    match T::parse_decimal(val) {
        Some(v) => Ok(v),
        None => Err(message("Invalid integer \"", val, "\"")),
    }
}

/// Parses a year, 1 through 9999.
pub fn parse_year(year: &str) -> (r: Result<i32, String>)
    ensures
        match <i32 as DecimalInt>::token_value(year@) {
            Some(v) => if 1 <= v <= 9999 {
                r == Ok::<i32, String>(v)
            } else {
                r matches Err(e) && e@ == quoted(
                    "year \""@,
                    year@,
                    "\" not in the range 1 through 9999"@,
                )
            },
            None => r matches Err(e) && e@ == quoted("Invalid integer \""@, year@, "\""@),
        },
{
    match parse_int::<i32>(year) {
        Ok(num) => {
            if 1 <= num && num <= 9999 {
                Ok(num)
            } else {
                Err(message("year \"", year, "\" not in the range 1 through 9999"))
            }
        },
        Err(e) => Err(e),
    }
}

/// The English name of a month, 1 through 12.
pub open spec fn month_name_of(month: int) -> Seq<char> {
    if month == 1 {
        "January"@
    } else if month == 2 {
        "February"@
    } else if month == 3 {
        "March"@
    } else if month == 4 {
        "April"@
    } else if month == 5 {
        "May"@
    } else if month == 6 {
        "June"@
    } else if month == 7 {
        "July"@
    } else if month == 8 {
        "August"@
    } else if month == 9 {
        "September"@
    } else if month == 10 {
        "October"@
    } else if month == 11 {
        "November"@
    } else {
        "December"@
    }
}

pub fn month_name(month: u32) -> (r: &'static str)
    requires
        1 <= month <= 12,
    ensures
        r@ == month_name_of(month as int),
{
    match month {
        1 => "January",
        2 => "February",
        3 => "March",
        4 => "April",
        5 => "May",
        6 => "June",
        7 => "July",
        8 => "August",
        9 => "September",
        10 => "October",
        11 => "November",
        _ => "December",
    }
}

pub open spec fn ascii_lower(c: char) -> char {
    if 'A' <= c && c <= 'Z' {
        ((c as u32) + 32) as char
    } else {
        c
    }
}

/// Whether `lower` begins the lower-case name of `month`.
pub open spec fn begins_month_name(lower: Seq<char>, month: int) -> bool {
    let name = month_name_of(month);
    lower.len() <= name.len() && forall|j: int|
        0 <= j < lower.len() ==> lower[j] == ascii_lower(#[trigger] name[j])
}

/// How many of the months 1 through `n` have a name that `lower` begins.
pub open spec fn months_begun(lower: Seq<char>, n: int) -> int
    decreases n,
{
    if n <= 0 {
        0
    } else {
        months_begun(lower, n - 1) + if begins_month_name(lower, n) {
            1int
        } else {
            0
        }
    }
}

pub proof fn lemma_months_begun_nonneg(lower: Seq<char>, n: int)
    ensures
        months_begun(lower, n) >= 0,
    decreases n,
{
    if n > 0 {
        lemma_months_begun_nonneg(lower, n - 1);
    }
}

fn begins_name(lower: &str, name: &str) -> (r: bool)
    ensures
        r == (lower@.len() <= name@.len() && forall|j: int|
            0 <= j < lower@.len() ==> lower@[j] == ascii_lower(#[trigger] name@[j])),
{
    let n = lower.unicode_len();
    if n > name.unicode_len() {
        return false;
    }
    let mut j: usize = 0;
    while j < n
        invariant
            n == lower@.len() <= name@.len(),
            j <= n,
            forall|i: int| 0 <= i < j ==> lower@[i] == ascii_lower(#[trigger] name@[i]),
        decreases n - j,
    {
        let c = name.get_char(j);
        let l = lower.get_char(j);
        let same = if 'A' <= c && c <= 'Z' {
            l as u32 == (c as u32) + 32
        } else {
            l == c
        };
        if !same {
            return false;
        }
        j = j + 1;
    }
    true
}

/// The month whose name alone an already lower-cased text begins.
pub fn month_from_lower(lower: &str) -> (r: Option<u32>)
    ensures
        match r {
            Some(m) => 1 <= m <= 12 && begins_month_name(lower@, m as int) && months_begun(
                lower@,
                12,
            ) == 1,
            None => months_begun(lower@, 12) != 1,
        },
{
    let mut count: u32 = 0;
    let mut found: u32 = 0;
    let mut m: u32 = 1;
    while m <= 12
        invariant
            1 <= m <= 13,
            count as int == months_begun(lower@, m - 1),
            count <= m - 1,
            count > 0 ==> 1 <= found < m && begins_month_name(lower@, found as int),
            count == 1 ==> months_begun(lower@, found - 1) == 0,
        decreases 13 - m,
    {
        proof {
            lemma_months_begun_nonneg(lower@, m - 1);
        }
        if begins_name(lower, month_name(m)) {
            if count == 0 {
                found = m;
            }
            count = count + 1;
        }
        m = m + 1;
    }
    if count == 1 {
        Some(found)
    } else {
        None
    }
}

/// What `str::to_lowercase` makes of a text: it depends on the text alone.
pub uninterp spec fn lower_of(s: Seq<char>) -> Seq<char>;

/// Relies on `str::to_lowercase` for the lower-case form of a text.
#[verifier::external_body]
fn lowercase(s: &str) -> (r: String)
    ensures
        r@ == lower_of(s@),
{
    s.to_lowercase()
}

/// Parses a month: a number 1 through 12, or the beginning of exactly one
/// month's name in any case.
pub fn parse_month(month: &str) -> (r: Result<u32, String>)
    ensures
        match <u32 as DecimalInt>::token_value(month@) {
            Some(v) => if 1 <= v <= 12 {
                r == Ok::<u32, String>(v)
            } else {
                r matches Err(e) && e@ == quoted(
                    "month \""@,
                    month@,
                    "\" not in the range 1 through 12"@,
                )
            },
            None => match r {
                Ok(m) => 1 <= m <= 12 && begins_month_name(lower_of(month@), m as int)
                    && months_begun(lower_of(month@), 12) == 1,
                Err(e) => months_begun(lower_of(month@), 12) != 1 && e@ == quoted(
                    "Invalid month \""@,
                    month@,
                    "\""@,
                ),
            },
        },
{
    match parse_int::<u32>(month) {
        Ok(num) => {
            if 1 <= num && num <= 12 {
                Ok(num)
            } else {
                Err(message("month \"", month, "\" not in the range 1 through 12"))
            }
        },
        Err(_) => {
            let lower = lowercase(month);
            match month_from_lower(lower.as_str()) {
                Some(m) => Ok(m),
                None => Err(message("Invalid month \"", month, "\"")),
            }
        },
    }
}

/// A calendar date of the proleptic Gregorian calendar.
#[derive(Debug, Clone, Copy, PartialEq, Eq, Structural)]
pub struct CalDate {
    pub year: i32,
    pub month: u32,
    pub day: u32,
}

/// The years that dates can be formed in.
pub open spec fn year_in_reach(year: int) -> bool {
    -262143 <= year <= 262142
}

pub open spec fn is_leap(year: int) -> bool {
    (year % 4 == 0 && year % 100 != 0) || year % 400 == 0
}

/// The number of days of a month.
pub open spec fn month_length(year: int, month: int) -> int {
    if month == 2 {
        if is_leap(year) {
            29
        } else {
            28
        }
    } else if month == 4 || month == 6 || month == 9 || month == 11 {
        30
    } else {
        31
    }
}

/// The day of the week of the first of a month, 1 for Sunday to 7 for
/// Saturday; it depends on the year and month alone.
pub uninterp spec fn weekday_of_first(year: int, month: int) -> int;

/// Relies on `chrono::NaiveDate::from_ymd_opt`, `weekday` and
/// `Weekday::number_from_sunday` for the weekday of the first of a month.
#[verifier::external_body]
fn first_weekday(year: i32, month: u32) -> (r: u32)
    requires
        year_in_reach(year as int),
        1 <= month <= 12,
    ensures
        r == weekday_of_first(year as int, month as int),
        1 <= r <= 7,
{
    NaiveDate::from_ymd_opt(year, month, 1).unwrap().weekday().number_from_sunday()
}

/// Relies on `chrono::NaiveDate::from_ymd_opt` and `pred_opt`: the day
/// before the first of a month is the last day of the month before.
#[verifier::external_body]
fn day_before_first(year: i32, month: u32) -> (r: CalDate)
    requires
        year_in_reach(year as int),
        month == 1 ==> year_in_reach(year - 1),
        1 <= month <= 12,
    ensures
        month == 1 ==> r == (CalDate { year: (year - 1) as i32, month: 12, day: 31 }),
        month > 1 ==> r == (CalDate {
            year,
            month: (month - 1) as u32,
            day: month_length(year as int, month - 1) as u32,
        }),
{
    let d = NaiveDate::from_ymd_opt(year, month, 1).unwrap().pred_opt().unwrap();
    CalDate { year: d.year(), month: d.month(), day: d.day() }
}

/// The last day of a month.
pub fn last_day_in_month(year: i32, month: u32) -> (r: CalDate)
    requires
        year_in_reach(year as int),
        year_in_reach(year + 1),
        1 <= month <= 12,
    ensures
        r == (CalDate { year, month, day: month_length(year as int, month as int) as u32 }),
{
    if month == 12 {
        day_before_first(year + 1, 1)
    } else {
        day_before_first(year, month + 1)
    }
}

/// Relies on `ansi_term::Style::reverse` and `paint`: the text between the
/// codes that switch reverse video on and all styles off.
#[verifier::external_body]
fn reverse_video(s: &str) -> (r: String)
    ensures
        r@ == "\u{1b}[7m"@ + s@ + "\u{1b}[0m"@,
{
    Style::new().reverse().paint(s).to_string()
}

pub open spec fn spaces(n: int) -> Seq<char> {
    Seq::new(n as nat, |i: int| ' ')
}

/// `format!("{:<w$}", s)`.
pub open spec fn pad_right(s: Seq<char>, w: int) -> Seq<char> {
    if s.len() >= w {
        s
    } else {
        s + spaces(w - s.len())
    }
}

/// `format!("{:^w$}", s)`: an odd space goes to the right.
pub open spec fn center(s: Seq<char>, w: int) -> Seq<char> {
    if s.len() >= w {
        s
    } else {
        spaces((w - s.len()) / 2) + s + spaces(w - s.len() - (w - s.len()) / 2)
    }
}

/// The texts joined with single spaces between them.
pub open spec fn join_cells(cs: Seq<Seq<char>>) -> Seq<char>
    decreases cs.len(),
{
    if cs.len() == 0 {
        Seq::empty()
    } else if cs.len() == 1 {
        cs[0]
    } else {
        join_cells(cs.drop_last()) + seq![' '] + cs.last()
    }
}

/// A year as `{}` writes an `i32`.
pub open spec fn year_text(year: int) -> Seq<char> {
    if year < 0 {
        seq!['-'] + decimal_digits((-year) as nat)
    } else {
        decimal_digits(year as nat)
    }
}

/// The cell of day `d`: two columns, in reverse video where it is today.
pub open spec fn day_cell(year: int, month: int, d: int, today: CalDate) -> Seq<char> {
    let t = pad_left(decimal_digits(d as nat), 2);
    if today.year == year && today.month == month && today.day == d {
        "\u{1b}[7m"@ + t + "\u{1b}[0m"@
    } else {
        t
    }
}

/// Blank cells up to the weekday `first` of the first (1 for Sunday), then
/// one cell for each of the `len` days.
pub open spec fn day_cells(year: int, month: int, first: int, len: int, today: CalDate) -> Seq<
    Seq<char>,
> {
    Seq::new((first - 1) as nat, |i: int| seq![' ', ' ']) + Seq::new(
        len as nat,
        |i: int| day_cell(year, month, i + 1, today),
    )
}

/// The line of week `k`: its cells joined, padded to the grid's width.
pub open spec fn week_line(cs: Seq<Seq<char>>, k: int) -> Seq<char> {
    let end = if 7 * k + 7 <= cs.len() {
        7 * k + 7
    } else {
        cs.len() as int
    };
    pad_right(join_cells(cs.subrange(7 * k, end)), 20) + seq![' ', ' ']
}

pub open spec fn month_header(year: int, month: int, print_year: bool) -> Seq<char> {
    let title = if print_year {
        month_name_of(month) + seq![' '] + year_text(year)
    } else {
        month_name_of(month)
    };
    center(title, 20) + seq![' ', ' ']
}

/// The eight lines of a month: title, weekday names, the weeks, and blank
/// lines after them.
pub open spec fn month_lines(
    year: int,
    month: int,
    print_year: bool,
    first: int,
    len: int,
    today: CalDate,
) -> Seq<Seq<char>> {
    let cs = day_cells(year, month, first, len, today);
    let top = seq![month_header(year, month, print_year), "Su Mo Tu We Th Fr Sa  "@] + Seq::new(
        ((cs.len() + 6) / 7) as nat,
        |k: int| week_line(cs, k),
    );
    top + Seq::new((8 - top.len()) as nat, |i: int| spaces(22))
}

fn spaces_string(n: usize) -> (r: String)
    ensures
        r@ == spaces(n as int),
{
    let mut r = String::new();
    let mut i: usize = 0;
    while i < n
        invariant
            i <= n,
            r@ == spaces(i as int),
        decreases n - i,
    {
        r.append(" ");
        proof {
            reveal_strlit(" ");
        }
        assert(r@ =~= spaces(i + 1));
        i = i + 1;
    }
    r
}

fn padded_right(s: String, w: usize) -> (r: String)
    ensures
        r@ == pad_right(s@, w as int),
{
    let len = s.unicode_len();
    if len >= w {
        s
    } else {
        let mut r = s;
        let fill = spaces_string(w - len);
        r.append(fill.as_str());
        r
    }
}

fn centered(s: String, w: usize) -> (r: String)
    ensures
        r@ == center(s@, w as int),
{
    let len = s.unicode_len();
    if len >= w {
        s
    } else {
        let pad = w - len;
        let mut r = spaces_string(pad / 2);
        r.append(s.as_str());
        let right = spaces_string(pad - pad / 2);
        r.append(right.as_str());
        r
    }
}

fn year_string(year: i32) -> (r: String)
    ensures
        r@ == year_text(year as int),
{
    if year < 0 {
        let mut r = String::from_str("-");
        proof {
            reveal_strlit("-");
        }
        let digits = to_decimal((-(year as i64)) as u64);
        r.append(digits.as_str());
        r
    } else {
        to_decimal(year as u64)
    }
}

fn join_range(cells: &Vec<String>, from: usize, to: usize) -> (r: String)
    requires
        from < to <= cells@.len(),
    ensures
        r@ == join_cells(views(cells@).subrange(from as int, to as int)),
{
    let ghost vs = views(cells@);
    let mut r = cells[from].clone();
    assert(vs.subrange(from as int, from + 1) =~= seq![cells@[from as int]@]);
    let mut j: usize = from + 1;
    while j < to
        invariant
            from < j <= to <= cells@.len(),
            vs == views(cells@),
            r@ == join_cells(vs.subrange(from as int, j as int)),
        decreases to - j,
    {
        r.append(" ");
        r.append(cells[j].as_str());
        proof {
            reveal_strlit(" ");
            assert(vs.subrange(from as int, j + 1).drop_last() =~= vs.subrange(from as int, j as int));
        }
        j = j + 1;
    }
    r
}

/// The lines that show one month as a grid of weeks from Sunday to
/// Saturday, with today's date, where it falls in the month, highlighted.
pub fn format_month(year: i32, month: u32, print_year: bool, today: CalDate) -> (r: Vec<String>)
    requires
        year_in_reach(year as int),
        year_in_reach(year + 1),
        1 <= month <= 12,
    ensures
        views(r@) == month_lines(
            year as int,
            month as int,
            print_year,
            weekday_of_first(year as int, month as int),
            month_length(year as int, month as int),
            today,
        ),
{
    let first = first_weekday(year, month);
    let last = last_day_in_month(year, month);
    month_grid(year, month, print_year, today, first, last.day)
}

/// The grid of a month whose first falls on weekday `first` (1 for
/// Sunday) and which has `len` days.
pub fn month_grid(year: i32, month: u32, print_year: bool, today: CalDate, first: u32, len: u32) -> (r:
    Vec<String>)
    requires
        1 <= first <= 7,
        1 <= len <= 31,
        1 <= month <= 12,
    ensures
        views(r@) == month_lines(year as int, month as int, print_year, first as int, len as int, today),
{
    let ghost cs = day_cells(year as int, month as int, first as int, len as int, today);
    let lead = (first - 1) as usize;
    let mut days: Vec<String> = Vec::new();
    while days.len() < lead
        invariant
            lead == first - 1,
            days@.len() <= lead,
            views(days@) == cs.subrange(0, days@.len() as int),
            cs == day_cells(year as int, month as int, first as int, len as int, today),
        decreases lead - days@.len(),
    {
        let ghost before = days@;
        days.push(String::from_str("  "));
        proof {
            reveal_strlit("  ");
            assert("  "@ =~= seq![' ', ' ']);
            assert(views(days@) =~= views(before).push(seq![' ', ' ']));
            assert(cs.subrange(0, days@.len() as int) =~= cs.subrange(0, before.len() as int).push(cs[before.len() as int]));
        }
    }
    let mut d: u32 = 1;
    while d <= len
        invariant
            lead == first - 1,
            1 <= len <= 31,
            1 <= d <= len + 1,
            days@.len() == lead + d - 1,
            views(days@) == cs.subrange(0, days@.len() as int),
            cs == day_cells(year as int, month as int, first as int, len as int, today),
        decreases len + 1 - d,
    {
        let cell = right_aligned(d as u64, 2);
        let cell = if year == today.year && month == today.month && d == today.day {
            reverse_video(cell.as_str())
        } else {
            cell
        };
        let ghost before = days@;
        days.push(cell);
        proof {
            assert(cs[before.len() as int] == day_cell(year as int, month as int, d as int, today));
            assert(views(days@) =~= views(before).push(cell@));
            assert(cs.subrange(0, days@.len() as int) =~= cs.subrange(0, before.len() as int).push(cs[before.len() as int]));
        }
        d = d + 1;
    }
    assert(views(days@) =~= cs);
    assert(days@.len() <= 37);
    let mut lines: Vec<String> = Vec::new();
    let name = month_name(month);
    let title = if print_year {
        let mut t = String::from_str(name);
        t.append(" ");
        let y = year_string(year);
        t.append(y.as_str());
        proof {
            reveal_strlit(" ");
        }
        t
    } else {
        String::from_str(name)
    };
    let mut header = centered(title, 20);
    header.append("  ");
    proof {
        reveal_strlit("  ");
        reveal_strlit(" ");
        assert("  "@ =~= seq![' ', ' ']);
        assert(" "@ =~= seq![' ']);
        assert(header@ =~= month_header(year as int, month as int, print_year));
    }
    lines.push(header);
    lines.push(String::from_str("Su Mo Tu We Th Fr Sa  "));
    let ghost heading = seq![month_header(year as int, month as int, print_year), "Su Mo Tu We Th Fr Sa  "@];
    assert(views(lines@) =~= heading);
    let n = days.len();
    let weeks = (n + 6) / 7;
    let mut k: usize = 0;
    while k < weeks
        invariant
            n == days@.len() == cs.len(),
            n <= 37,
            views(days@) == cs,
            weeks == (n + 6) / 7,
            k <= weeks,
            views(lines@) == heading + Seq::new(k as nat, |i: int| week_line(cs, i)),
        decreases weeks - k,
    {
        let end = if 7 * k + 7 <= n {
            7 * k + 7
        } else {
            n
        };
        let joined = join_range(&days, 7 * k, end);
        let mut line = padded_right(joined, 20);
        line.append("  ");
        proof {
            reveal_strlit("  ");
            assert("  "@ =~= seq![' ', ' ']);
        }
        let ghost before = lines@;
        lines.push(line);
        proof {
            assert(views(lines@) =~= views(before).push(line@));
            assert(heading + Seq::new((k + 1) as nat, |i: int| week_line(cs, i)) =~= (heading + Seq::new(k as nat, |i: int| week_line(cs, i))).push(week_line(cs, k as int)));
        }
        k = k + 1;
    }
    let ghost top = views(lines@);
    assert(top.len() <= 8);
    assert(views(lines@) =~= top + Seq::new(0, |i: int| spaces(22)));
    while lines.len() < 8
        invariant
            top.len() <= lines@.len() <= 8,
            views(lines@) == top + Seq::new((lines@.len() - top.len()) as nat, |i: int| spaces(22)),
        decreases 8 - lines@.len(),
    {
        let ghost before = lines@;
        let fill = spaces_string(22);
        lines.push(fill);
        proof {
            assert(views(lines@) =~= views(before).push(spaces(22)));
            assert(top + Seq::new((lines@.len() - top.len()) as nat, |i: int| spaces(22)) =~= (top
                + Seq::new((before.len() - top.len()) as nat, |i: int| spaces(22))).push(spaces(22)));
        }
    }
    proof {
        assert(top =~= seq![month_header(year as int, month as int, print_year), "Su Mo Tu We Th Fr Sa  "@] + Seq::new(((cs.len() + 6) / 7) as nat, |k: int| week_line(cs, k)));
    }
    lines
}

} // verus!
