//! The date formatter: a date-valued string of unknown layout is parsed
//! against four candidate layouts and rendered in the requested style,
//! with month names and the preposition drawn from the locale table.

use vstd::prelude::*;
use crate::chars::str_to_chars;
use crate::digits::{dec_digits, int_digits, i64_to_chars, u64_to_chars};
use crate::locale::{month_of, LocaleTable};
use chrono::Datelike;

verus! {

/// What chrono's `NaiveDate::parse_from_str` makes of a string under a
/// layout: the (year, month, day) of the date it denotes, or nothing.
/// A function of the two strings alone.
pub uninterp spec fn chrono_ymd_of(s: Seq<char>, fmt: Seq<char>) -> Option<(i64, u32, u32)>;

/// Relies on chrono's `NaiveDate::parse_from_str`, with the `Datelike`
/// accessors `year`, `month` and `day` reading the parts back out:
/// whether a string parses under a layout, and the date it then
/// denotes, depend on the two strings alone; the parts of a parsed
/// date are a valid calendar date, so its month is 1 through 12 and
/// its day 1 through 31.
#[verifier::external_body]
fn parse_date_with(s: &str, fmt: &str) -> (r: Option<(i64, u32, u32)>)
    ensures
        r == chrono_ymd_of(s@, fmt@),
        match r {
            Some(p) => 1 <= p.1 <= 12 && 1 <= p.2 <= 31,
            None => true,
        },
{
    match chrono::NaiveDate::parse_from_str(s, fmt) {
        Ok(d) => Some((d.year() as i64, d.month(), d.day())),
        Err(_) => None,
    }
}

/// The candidate layouts, tried in order: the first that parses wins.
pub open spec fn date_parse(s: Seq<char>) -> Option<(i64, u32, u32)> {
    if chrono_ymd_of(s, "%Y-%m-%d"@) is Some {
        chrono_ymd_of(s, "%Y-%m-%d"@)
    } else if chrono_ymd_of(s, "%Y/%m/%d"@) is Some {
        chrono_ymd_of(s, "%Y/%m/%d"@)
    } else if chrono_ymd_of(s, "%d-%m-%Y"@) is Some {
        chrono_ymd_of(s, "%d-%m-%Y"@)
    } else {
        chrono_ymd_of(s, "%d/%m/%Y"@)
    }
}

/// The date a string denotes, under the first candidate layout that
/// accepts it.
pub fn parse_date(s: &str) -> (r: Option<(i64, u32, u32)>)
    ensures
        r == date_parse(s@),
        match r {
            Some(p) => 1 <= p.1 <= 12 && 1 <= p.2 <= 31,
            None => true,
        },
{
    if let Some(p) = parse_date_with(s, "%Y-%m-%d") {
        return Some(p);
    }
    if let Some(p) = parse_date_with(s, "%Y/%m/%d") {
        return Some(p);
    }
    if let Some(p) = parse_date_with(s, "%d-%m-%Y") {
        return Some(p);
    }
    parse_date_with(s, "%d/%m/%Y")
}

/// A number padded with zeros to two digits.
pub open spec fn pad2(n: u32) -> Seq<char> {
    if n < 10 {
        seq!['0'] + dec_digits(n as nat)
    } else {
        dec_digits(n as nat)
    }
}

/// A number padded with zeros to four digits.
pub open spec fn pad4(n: nat) -> Seq<char> {
    if n < 10 {
        seq!['0', '0', '0'] + dec_digits(n)
    } else if n < 100 {
        seq!['0', '0'] + dec_digits(n)
    } else if n < 1000 {
        seq!['0'] + dec_digits(n)
    } else {
        dec_digits(n)
    }
}

/// A year as four zero-padded digits, signed when negative.
pub open spec fn year_text(y: i64) -> Seq<char> {
    if y < 0 {
        seq!['-'] + pad4((-(y as int)) as nat)
    } else {
        pad4(y as nat)
    }
}

/// The short rendering: day, month and year separated by slashes.
pub open spec fn short_date(y: i64, m: u32, d: u32) -> Seq<char> {
    pad2(d) + seq!['/'] + pad2(m) + seq!['/'] + year_text(y)
}

/// The long rendering: the day, the locale's preposition, the month
/// name, the preposition again, and the year. Without a month name in
/// the table it falls back to the short rendering.
pub open spec fn long_date(y: i64, m: u32, d: u32, table: LocaleTable) -> Seq<char> {
    match month_of(table.months@, m) {
        None => short_date(y, m, d),
        Some(name) => dec_digits(d as nat) + seq![' '] + table.preposition@ + seq![' '] + name
            + seq![' '] + table.preposition@ + seq![' '] + int_digits(y as int),
    }
}

/// The style name that selects the long rendering; every other style
/// renders short.
pub open spec fn is_long_style(style: Seq<char>) -> bool {
    style == seq!['l', 'o', 'n', 'g']
}

/// What formatting a date-valued string renders: the parsed date in the
/// requested style, or the string itself when no layout accepts it.
pub open spec fn format_date_spec(s: Seq<char>, style: Seq<char>, table: LocaleTable) -> Seq<char> {
    match date_parse(s) {
        None => s,
        Some(p) => if is_long_style(style) {
            long_date(p.0, p.1, p.2, table)
        } else {
            short_date(p.0, p.1, p.2)
        },
    }
}

/// Date formatting, the long style in general: whenever any candidate
/// layout parses the string to a date and the table names its month,
/// the long rendering is the day, the preposition, the month name, the
/// preposition again, and the year.
pub proof fn lemma_long_style_wording(
    s: Seq<char>,
    table: LocaleTable,
    y: i64,
    m: u32,
    d: u32,
    name: Seq<char>,
)
    requires
        date_parse(s) == Some((y, m, d)),
        month_of(table.months@, m) == Some(name),
    ensures
        format_date_spec(s, seq!['l', 'o', 'n', 'g'], table) == dec_digits(d as nat) + seq![' ']
            + table.preposition@ + seq![' '] + name + seq![' '] + table.preposition@ + seq![' ']
            + int_digits(y as int),
{
}

/// Date formatting, the short style in general: whenever any candidate
/// layout parses the string, every style but `long` renders the
/// zero-padded day, month and year, slash-separated.
pub proof fn lemma_short_style_wording(
    s: Seq<char>,
    style: Seq<char>,
    table: LocaleTable,
    y: i64,
    m: u32,
    d: u32,
)
    requires
        date_parse(s) == Some((y, m, d)),
        !is_long_style(style),
    ensures
        format_date_spec(s, style, table) == pad2(d) + seq!['/'] + pad2(m) + seq!['/'] + year_text(
            y,
        ),
{
}

/// Date formatting, graceful degradation: a string no candidate layout
/// parses passes through unchanged in every style.
pub proof fn lemma_unparsed_date_passthrough(s: Seq<char>, style: Seq<char>, table: LocaleTable)
    requires
        date_parse(s) is None,
    ensures
        format_date_spec(s, style, table) == s,
{
}

fn pad2_chars(n: u32) -> (r: Vec<char>)
    ensures
        r@ == pad2(n),
{
    if n < 10 {
        let mut v: Vec<char> = Vec::new();
        v.push('0');
        let mut d = u64_to_chars(n as u64);
        v.append(&mut d);
        assert(v@ =~= pad2(n));
        v
    } else {
        u64_to_chars(n as u64)
    }
}

fn pad4_chars(n: u64) -> (r: Vec<char>)
    ensures
        r@ == pad4(n as nat),
{
    let mut v: Vec<char> = Vec::new();
    if n < 10 {
        v.push('0');
        v.push('0');
        v.push('0');
    } else if n < 100 {
        v.push('0');
        v.push('0');
    } else if n < 1000 {
        v.push('0');
    }
    let mut d = u64_to_chars(n);
    v.append(&mut d);
    assert(v@ =~= pad4(n as nat));
    v
}

fn year_chars(y: i64) -> (r: Vec<char>)
    ensures
        r@ == year_text(y),
{
    if y >= 0 {
        pad4_chars(y as u64)
    } else {
        let mag: u64 = ((-(y + 1)) as u64) + 1;
        assert(mag as int == -(y as int));
        let mut v: Vec<char> = Vec::new();
        v.push('-');
        let mut d = pad4_chars(mag);
        v.append(&mut d);
        assert(v@ =~= year_text(y));
        v
    }
}

fn short_date_chars(y: i64, m: u32, d: u32) -> (r: Vec<char>)
    ensures
        r@ == short_date(y, m, d),
{
    let mut v = pad2_chars(d);
    v.push('/');
    let mut mm = pad2_chars(m);
    v.append(&mut mm);
    v.push('/');
    let mut yy = year_chars(y);
    v.append(&mut yy);
    assert(v@ =~= short_date(y, m, d));
    v
}

fn long_date_chars(y: i64, m: u32, d: u32, table: &LocaleTable) -> (r: Vec<char>)
    ensures
        r@ == long_date(y, m, d, *table),
{
    match table.month_name(m) {
        None => short_date_chars(y, m, d),
        Some(name) => {
            let name_chars = str_to_chars(name.as_str());
            let prep = str_to_chars(table.preposition.as_str());
            let mut v = u64_to_chars(d as u64);
            v.push(' ');
            let mut p1 = prep.clone();
            v.append(&mut p1);
            v.push(' ');
            let mut nm = name_chars;
            v.append(&mut nm);
            v.push(' ');
            let mut p2 = prep;
            v.append(&mut p2);
            v.push(' ');
            let mut yy = i64_to_chars(y);
            v.append(&mut yy);
            assert(v@ =~= long_date(y, m, d, *table));
            v
        },
    }
}

/// The formatted date, as characters: the parsed date in the requested
/// style, or the characters of the string itself when no layout
/// accepts it.
pub fn format_date_chars(date: &str, long: bool, table: &LocaleTable) -> (r: Vec<char>)
    ensures
        r@ == match date_parse(date@) {
            None => date@,
            Some(p) => if long {
                long_date(p.0, p.1, p.2, *table)
            } else {
                short_date(p.0, p.1, p.2)
            },
        },
{
    match parse_date(date) {
        None => str_to_chars(date),
        Some(p) => if long {
            long_date_chars(p.0, p.1, p.2, table)
        } else {
            short_date_chars(p.0, p.1, p.2)
        },
    }
}

/// Whether a style name, given as characters, selects the long rendering.
pub fn is_long_chars(style: &Vec<char>) -> (r: bool)
    ensures
        r == is_long_style(style@),
{
    let r = style.len() == 4 && style[0] == 'l' && style[1] == 'o' && style[2] == 'n' && style[3]
        == 'g';
    if r {
        assert(style@ =~= seq!['l', 'o', 'n', 'g']);
    }
    r
}

/// The date formatter on strings: the date string rendered in the given
/// style (`long` for the wordy form; anything else renders short), or
/// returned unchanged when no candidate layout accepts it.
pub fn format_date_with_locale(date_str: &str, format: &str, table: &LocaleTable) -> (r: String)
    ensures
        r@ == format_date_spec(date_str@, format@, *table),
{
    let style = str_to_chars(format);
    let long = is_long_chars(&style);
    let out = format_date_chars(date_str, long, table);
    crate::chars::chars_to_string(&out)
}

} // verus!
