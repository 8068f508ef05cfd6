//! Human-readable cookie lines: `<expires> <domain> <path> <name> <value>`
//! followed by ` Secure`, ` HttpOnly` and ` /* comment */` when present, with
//! the expiry rendered as `YYYY-MM-DD HH:MM:SS` in UTC.

use vstd::prelude::*;

use time::{OffsetDateTime, UtcOffset};

use crate::model::{http_only_bit, secure_bit, Flags};

verus! {

#[verifier::external_type_specification]
#[verifier::external_body]
pub struct ExUtcOffset(UtcOffset);

/// The decimal digit `d`.
pub open spec fn digit_char(d: nat) -> char {
    if d == 0 {
        '0'
    } else if d == 1 {
        '1'
    } else if d == 2 {
        '2'
    } else if d == 3 {
        '3'
    } else if d == 4 {
        '4'
    } else if d == 5 {
        '5'
    } else if d == 6 {
        '6'
    } else if d == 7 {
        '7'
    } else if d == 8 {
        '8'
    } else {
        '9'
    }
}

/// The decimal digits of `n`, without leading zeros.
pub open spec fn decimal(n: nat) -> Seq<char>
    decreases n,
{
    if n < 10 {
        seq![digit_char(n)]
    } else {
        decimal(n / 10).push(digit_char(n % 10))
    }
}

/// The decimal digits of `n`, left-padded with zeros to at least `width`.
pub open spec fn zero_padded(n: nat, width: nat) -> Seq<char> {
    if decimal(n).len() < width {
        Seq::new((width - decimal(n).len()) as nat, |i: int| '0') + decimal(n)
    } else {
        decimal(n)
    }
}

/// A year as four digits after any sign (`-0028`, not `-028`).
pub open spec fn year_text(year: i32) -> Seq<char> {
    if year < 0 {
        seq!['-'] + zero_padded((-year) as nat, 4)
    } else {
        zero_padded(year as nat, 4)
    }
}

/// The comment suffix: shown only for a present, non-empty comment.
pub open spec fn comment_text(comment: Option<Seq<char>>) -> Seq<char> {
    match comment {
        Some(c) => if c.len() > 0 {
            " /* "@ + c + " */"@
        } else {
            Seq::empty()
        },
        None => Seq::empty(),
    }
}

/// The characters of an optional comment.
pub open spec fn comment_view(comment: Option<&str>) -> Option<Seq<char>> {
    match comment {
        Some(c) => Some(c@),
        None => None,
    }
}

/// The whole line for a cookie whose expiry falls on the given calendar
/// fields.
pub open spec fn cookie_line(
    year: i32,
    month: u8,
    day: u8,
    hour: u8,
    minute: u8,
    second: u8,
    domain: Seq<char>,
    path: Seq<char>,
    name: Seq<char>,
    value: Seq<char>,
    flags: u32,
    comment: Option<Seq<char>>,
) -> Seq<char> {
    year_text(year) + "-"@ + zero_padded(month as nat, 2) + "-"@ + zero_padded(day as nat, 2) + " "@
        + zero_padded(hour as nat, 2) + ":"@ + zero_padded(minute as nat, 2) + ":"@ + zero_padded(
        second as nat,
        2,
    ) + " "@ + domain + " "@ + path + " "@ + name + " "@ + value + (if secure_bit(flags) {
        " Secure"@
    } else {
        Seq::empty()
    }) + (if http_only_bit(flags) {
        " HttpOnly"@
    } else {
        Seq::empty()
    }) + comment_text(comment)
}

fn digit_str(d: u32) -> (s: &'static str)
    requires
        d < 10,
    ensures
        s@ == seq![digit_char(d as nat)],
{
    proof {
        reveal_strlit("0");
        reveal_strlit("1");
        reveal_strlit("2");
        reveal_strlit("3");
        reveal_strlit("4");
        reveal_strlit("5");
        reveal_strlit("6");
        reveal_strlit("7");
        reveal_strlit("8");
        reveal_strlit("9");
    }
    let s = if d == 0 {
        "0"
    } else if d == 1 {
        "1"
    } else if d == 2 {
        "2"
    } else if d == 3 {
        "3"
    } else if d == 4 {
        "4"
    } else if d == 5 {
        "5"
    } else if d == 6 {
        "6"
    } else if d == 7 {
        "7"
    } else if d == 8 {
        "8"
    } else {
        "9"
    };
    assert(s@ =~= seq![digit_char(d as nat)]);
    s
}

fn push_decimal(out: &mut String, n: u32)
    ensures
        final(out)@ == old(out)@ + decimal(n as nat),
    decreases n,
{
    if n >= 10 {
        push_decimal(out, n / 10);
    }
    out.append(digit_str(n % 10));
    assert(final(out)@ =~= old(out)@ + decimal(n as nat)) by {
        if n >= 10 {
            assert(decimal(n as nat) == decimal((n / 10) as nat).push(digit_char((n % 10) as nat)));
        }
    }
}

fn decimal_len(n: u32) -> (len: usize)
    ensures
        len == decimal(n as nat).len(),
        len <= n + 1,
    decreases n,
{
    if n >= 10 {
        decimal_len(n / 10) + 1
    } else {
        1
    }
}

/// Appends `n` in decimal, left-padded with zeros to at least `width` digits.
fn push_zero_padded(out: &mut String, n: u32, width: usize)
    ensures
        final(out)@ == old(out)@ + zero_padded(n as nat, width as nat),
{
    let len = decimal_len(n);
    let ghost start = out@;
    if len < width {
        proof {
            reveal_strlit("0");
        }
        let mut i: usize = 0;
        while i < width - len
            invariant
                len < width,
                i <= width - len,
                out@ == start + Seq::new(i as nat, |j: int| '0'),
            decreases width - len - i,
        {
            proof {
                reveal_strlit("0");
            }
            out.append("0");
            assert(out@ =~= start + Seq::new((i + 1) as nat, |j: int| '0'));
            i = i + 1;
        }
    }
    push_decimal(out, n);
    assert(out@ =~= start + zero_padded(n as nat, width as nat));
}

/// Renders a cookie line from the expiry's calendar fields.
pub fn format_line(
    year: i32,
    month: u8,
    day: u8,
    hour: u8,
    minute: u8,
    second: u8,
    domain: &str,
    path: &str,
    name: &str,
    value: &str,
    flags: Flags,
    comment: Option<&str>,
) -> (line: String)
    ensures
        line@ == cookie_line(
            year,
            month,
            day,
            hour,
            minute,
            second,
            domain@,
            path@,
            name@,
            value@,
            flags@,
            comment_view(comment),
        ),
{
    let mut out = String::new();
    if year < 0 {
        proof {
            reveal_strlit("-");
        }
        out.append("-");
        // `unsigned_abs`: the magnitude of any i32 fits in a u32.
        let magnitude: u32 = if year == i32::MIN {
            0x8000_0000
        } else {
            (-year) as u32
        };
        push_zero_padded(&mut out, magnitude, 4);
    } else {
        push_zero_padded(&mut out, year as u32, 4);
    }
    assert(out@ =~= year_text(year));
    out.append("-");
    push_zero_padded(&mut out, month as u32, 2);
    out.append("-");
    push_zero_padded(&mut out, day as u32, 2);
    out.append(" ");
    push_zero_padded(&mut out, hour as u32, 2);
    out.append(":");
    push_zero_padded(&mut out, minute as u32, 2);
    out.append(":");
    push_zero_padded(&mut out, second as u32, 2);
    out.append(" ");
    out.append(domain);
    out.append(" ");
    out.append(path);
    out.append(" ");
    out.append(name);
    out.append(" ");
    out.append(value);
    if flags.is_secure() {
        out.append(" Secure");
    }
    if flags.is_http_only() {
        out.append(" HttpOnly");
    }
    match comment {
        Some(c) => {
            if c.unicode_len() > 0 {
                out.append(" /* ");
                out.append(c);
                out.append(" */");
            }
        },
        None => {},
    }
    out
}

/// What `OffsetDateTime::checked_to_offset(UtcOffset::UTC)` gives for a
/// date-time: the same instant in UTC, or `None` when that falls outside the
/// representable years.
pub uninterp spec fn utc_of(datetime: OffsetDateTime) -> Option<OffsetDateTime>;

/// The year that `OffsetDateTime::year` reports for a date-time.
pub uninterp spec fn year_of(datetime: OffsetDateTime) -> i32;

/// The month number (January is 1) of `OffsetDateTime::month`.
pub uninterp spec fn month_of(datetime: OffsetDateTime) -> u8;

/// The day of the month that `OffsetDateTime::day` reports.
pub uninterp spec fn day_of(datetime: OffsetDateTime) -> u8;

/// The hour that `OffsetDateTime::hour` reports.
pub uninterp spec fn hour_of(datetime: OffsetDateTime) -> u8;

/// The minute that `OffsetDateTime::minute` reports.
pub uninterp spec fn minute_of(datetime: OffsetDateTime) -> u8;

/// The second that `OffsetDateTime::second` reports.
pub uninterp spec fn second_of(datetime: OffsetDateTime) -> u8;

/// Calls `OffsetDateTime::checked_to_offset` with `UtcOffset::UTC`.
///
/// Trusted: the result depends on the date-time alone (named `utc_of`).
#[verifier::external_body]
fn checked_to_utc(datetime: OffsetDateTime) -> (utc: Option<OffsetDateTime>)
    ensures
        utc == utc_of(datetime),
{
    datetime.checked_to_offset(UtcOffset::UTC)
}

/// Calls `OffsetDateTime::year`. Trusted: the year depends on the date-time
/// alone (named `year_of`).
#[verifier::external_body]
fn datetime_year(datetime: OffsetDateTime) -> (year: i32)
    ensures
        year == year_of(datetime),
{
    datetime.year()
}

/// Calls `OffsetDateTime::month` and takes the month's number. Trusted: it
/// depends on the date-time alone (named `month_of`) and is in `1..=12`, as the
/// `time` documentation states.
#[verifier::external_body]
fn datetime_month(datetime: OffsetDateTime) -> (month: u8)
    ensures
        month == month_of(datetime),
        1 <= month <= 12,
{
    u8::from(datetime.month())
}

/// Calls `OffsetDateTime::day`. Trusted: it depends on the date-time alone
/// (named `day_of`) and is in `1..=31`, as the `time` documentation states.
#[verifier::external_body]
fn datetime_day(datetime: OffsetDateTime) -> (day: u8)
    ensures
        day == day_of(datetime),
        1 <= day <= 31,
{
    datetime.day()
}

/// Calls `OffsetDateTime::hour`. Trusted: it depends on the date-time alone
/// (named `hour_of`) and is below 24, as the `time` documentation states.
#[verifier::external_body]
fn datetime_hour(datetime: OffsetDateTime) -> (hour: u8)
    ensures
        hour == hour_of(datetime),
        hour < 24,
{
    datetime.hour()
}

/// Calls `OffsetDateTime::minute`. Trusted: it depends on the date-time alone
/// (named `minute_of`) and is below 60, as the `time` documentation states.
#[verifier::external_body]
fn datetime_minute(datetime: OffsetDateTime) -> (minute: u8)
    ensures
        minute == minute_of(datetime),
        minute < 60,
{
    datetime.minute()
}

/// Calls `OffsetDateTime::second`. Trusted: it depends on the date-time alone
/// (named `second_of`) and is below 60, as the `time` documentation states.
#[verifier::external_body]
fn datetime_second(datetime: OffsetDateTime) -> (second: u8)
    ensures
        second == second_of(datetime),
        second < 60,
{
    datetime.second()
}

/// The date-time whose calendar fields a cookie line shows: `expires` moved
/// to UTC, or `expires` itself when it cannot be moved.
pub open spec fn shown_datetime(expires: OffsetDateTime) -> OffsetDateTime {
    match utc_of(expires) {
        Some(utc) => utc,
        None => expires,
    }
}

/// Renders a cookie line with `expires` shown in UTC; a value that cannot be
/// moved to UTC is shown in its own offset rather than failing.
pub fn display_line(
    expires: OffsetDateTime,
    domain: &str,
    path: &str,
    name: &str,
    value: &str,
    flags: Flags,
    comment: Option<&str>,
) -> (line: String)
    ensures
        line@ == cookie_line(
            year_of(shown_datetime(expires)),
            month_of(shown_datetime(expires)),
            day_of(shown_datetime(expires)),
            hour_of(shown_datetime(expires)),
            minute_of(shown_datetime(expires)),
            second_of(shown_datetime(expires)),
            domain@,
            path@,
            name@,
            value@,
            flags@,
            comment_view(comment),
        ),
        utc_of(expires) matches Some(utc) ==> line@ == cookie_line(
            year_of(utc),
            month_of(utc),
            day_of(utc),
            hour_of(utc),
            minute_of(utc),
            second_of(utc),
            domain@,
            path@,
            name@,
            value@,
            flags@,
            comment_view(comment),
        ),
        utc_of(expires) is None ==> line@ == cookie_line(
            year_of(expires),
            month_of(expires),
            day_of(expires),
            hour_of(expires),
            minute_of(expires),
            second_of(expires),
            domain@,
            path@,
            name@,
            value@,
            flags@,
            comment_view(comment),
        ),
{
    let utc = match checked_to_utc(expires) {
        Some(utc) => utc,
        None => expires,
    };
    let year = datetime_year(utc);
    let month = datetime_month(utc);
    let day = datetime_day(utc);
    let hour = datetime_hour(utc);
    let minute = datetime_minute(utc);
    let second = datetime_second(utc);
    format_line(year, month, day, hour, minute, second, domain, path, name, value, flags, comment)
}

/// A cookie line shows its expiry in UTC: whenever the expiry has a UTC
/// conversion, the date-time whose fields are shown is that conversion, and
/// only an expiry without one is shown as it is.
pub proof fn lemma_shown_in_utc(expires: OffsetDateTime)
    ensures
        utc_of(expires) matches Some(utc) ==> shown_datetime(expires) == utc,
        utc_of(expires) is None ==> shown_datetime(expires) == expires,
{
}

} // verus!
