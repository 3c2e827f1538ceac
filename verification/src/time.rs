//! Calendar arithmetic over plain wall-clock seconds, and the duration /
//! number formatting used by display code.
//!
//! An instant is a `u64`: seconds of local wall time. A calendar day is the
//! instant divided by [`SECS_PER_DAY`]; day boundaries therefore fall on
//! multiples of `SECS_PER_DAY`.

use vstd::prelude::*;

verus! {

pub const SECS_PER_DAY: u64 = 86400;

pub const SECS_PER_HOUR: u64 = 3600;

pub const SECS_PER_MINUTE: u64 = 60;

/// The calendar day an instant falls on.
pub open spec fn day_of(ts: u64) -> u64 {
    ts / SECS_PER_DAY
}

/// First second (00:00:00) of a calendar day.
pub open spec fn day_start(day: u64) -> u64
    recommends
        day * SECS_PER_DAY <= u64::MAX,
{
    (day * SECS_PER_DAY) as u64
}

/// Last second (23:59:59) of a calendar day.
pub open spec fn day_end(day: u64) -> u64
    recommends
        day * SECS_PER_DAY + (SECS_PER_DAY - 1) <= u64::MAX,
{
    (day * SECS_PER_DAY + (SECS_PER_DAY - 1)) as u64
}

/// Number of whole calendar-day boundaries crossed between two instants,
/// i.e. the difference of their calendar days.
pub fn calendar_days_count(from: u64, to: u64) -> (r: u32)
    requires
        day_of(from) <= day_of(to),
        day_of(to) - day_of(from) <= u32::MAX,
    ensures
        r == day_of(to) - day_of(from),
{
    ((to / SECS_PER_DAY) - (from / SECS_PER_DAY)) as u32
}

/// An instant lies between the first and last second of its calendar day.
pub proof fn lemma_day_bounds(ts: u64)
    ensures
        day_of(ts) * SECS_PER_DAY <= ts,
        ts < day_of(ts) * SECS_PER_DAY + SECS_PER_DAY,
{
    vstd::arithmetic::div_mod::lemma_fundamental_div_mod(ts as int, SECS_PER_DAY as int);
}

/// Later instants fall on the same or a later calendar day.
pub proof fn lemma_day_mono(a: u64, b: u64)
    requires
        a <= b,
    ensures
        day_of(a) <= day_of(b),
{
    vstd::arithmetic::div_mod::lemma_div_is_ordered(a as int, b as int, SECS_PER_DAY as int);
}

/// Whether a year is a leap year in the proleptic Gregorian calendar.
pub open spec fn is_leap_year(year: i32) -> bool {
    (year % 4 == 0 && year % 100 != 0) || year % 400 == 0
}

/// Length in days of a month of the Gregorian calendar.
pub open spec fn spec_days_in_month(year: i32, month: u32) -> u32
    recommends
        1 <= month <= 12,
{
    if month == 2 {
        if is_leap_year(year) {
            29
        } else {
            28
        }
    } else if month == 4 || month == 6 || month == 9 || month == 11 {
        30
    } else {
        31
    }
}

/// How many days the given month has.
pub fn get_days_from_month(year: i32, month: u32) -> (r: u32)
    requires
        1 <= month <= 12,
    ensures
        r == spec_days_in_month(year, month),
{
    if month == 2 {
        let leap = (year % 4 == 0 && year % 100 != 0) || year % 400 == 0;
        if leap {
            29
        } else {
            28
        }
    } else if month == 4 || month == 6 || month == 9 || month == 11 {
        30
    } else {
        31
    }
}

/// The decimal digit character for a value below ten.
pub open spec fn spec_digit(d: u64) -> char
    recommends
        d < 10,
{
    if d == 0 {
        '0'
    } else if d == 1 {
        '1'
    } else if d == 2 {
        '2'
    } else if d == 3 {
        '3'
    } else if d == 4 {
        '4'
    } else if d == 5 {
        '5'
    } else if d == 6 {
        '6'
    } else if d == 7 {
        '7'
    } else if d == 8 {
        '8'
    } else {
        '9'
    }
}

/// Decimal representation of a number, most significant digit first.
pub open spec fn spec_decimal(n: u64) -> Seq<char>
    decreases n,
{
    if n < 10 {
        seq![spec_digit(n)]
    } else {
        spec_decimal(n / 10) + seq![spec_digit(n % 10)]
    }
}

/// A number padded to at least two digits: single digits get a leading zero.
pub open spec fn spec_padded(n: u64) -> Seq<char> {
    if n > 9 {
        spec_decimal(n)
    } else {
        seq!['0', spec_digit(n)]
    }
}

fn digit_str(d: u64) -> (r: &'static str)
    requires
        d < 10,
    ensures
        r@ == seq![spec_digit(d)],
{
    proof {
        reveal_strlit("0");
        reveal_strlit("1");
        reveal_strlit("2");
        reveal_strlit("3");
        reveal_strlit("4");
        reveal_strlit("5");
        reveal_strlit("6");
        reveal_strlit("7");
        reveal_strlit("8");
        reveal_strlit("9");
    }
    if d == 0 {
        "0"
    } else if d == 1 {
        "1"
    } else if d == 2 {
        "2"
    } else if d == 3 {
        "3"
    } else if d == 4 {
        "4"
    } else if d == 5 {
        "5"
    } else if d == 6 {
        "6"
    } else if d == 7 {
        "7"
    } else if d == 8 {
        "8"
    } else {
        "9"
    }
}

fn push_decimal(s: &mut String, n: u64)
    ensures
        final(s)@ == old(s)@ + spec_decimal(n),
    decreases n,
{
    if n >= 10 {
        push_decimal(s, n / 10);
    }
    s.append(digit_str(n % 10));
    proof {
        if n < 10 {
            assert(old(s)@ + spec_decimal(n) =~= old(s)@ + seq![spec_digit(n)]);
        } else {
            assert(old(s)@ + spec_decimal(n) =~= (old(s)@ + spec_decimal(n / 10)) + seq![
                spec_digit(n % 10),
            ]);
        }
    }
}

/// A number in decimal, padded with a leading zero to at least two digits.
pub fn format_number(number: u32) -> (r: String)
    ensures
        r@ == spec_padded(number as u64),
{
    let mut s = String::new();
    if number > 9 {
        push_decimal(&mut s, number as u64);
    } else {
        proof {
            reveal_strlit("0");
        }
        s.append("0");
        push_decimal(&mut s, number as u64);
        proof {
            assert(seq!['0'] + seq![spec_digit(number as u64)] =~= spec_padded(number as u64));
        }
    }
    proof {
        assert(Seq::<char>::empty() + spec_decimal(number as u64) =~= spec_decimal(
            number as u64,
        ));
    }
    s
}

/// What a duration of a given number of seconds reads as: a space, then
/// whole hours and minutes, each padded to two digits. Hours saturate at
/// the largest `u32`.
pub open spec fn spec_clock_text(secs: u64) -> Seq<char> {
    let hours = if secs / SECS_PER_HOUR > u32::MAX {
        u32::MAX as u64
    } else {
        secs / SECS_PER_HOUR
    };
    let minutes = (secs % SECS_PER_HOUR) / SECS_PER_MINUTE;
    seq![' '] + spec_padded(hours) + seq![':'] + spec_padded(minutes)
}

/// A duration, in seconds, as ` HH:MM` text.
pub fn format_duration(duration: u64) -> (r: String)
    ensures
        r@ == spec_clock_text(duration),
{
    let h64 = duration / SECS_PER_HOUR;
    let hours: u32 = if h64 > u32::MAX as u64 {
        u32::MAX
    } else {
        h64 as u32
    };
    let minutes: u32 = ((duration % SECS_PER_HOUR) / SECS_PER_MINUTE) as u32;
    let mut s = String::new();
    proof {
        reveal_strlit(" ");
        reveal_strlit(":");
    }
    s.append(" ");
    let hs = format_number(hours);
    s.append(hs.as_str());
    s.append(":");
    let ms = format_number(minutes);
    s.append(ms.as_str());
    proof {
        assert(s@ =~= spec_clock_text(duration));
    }
    s
}

/// A signed duration as ` HH:MM` text; anything at or below zero reads as
/// zero, as the display layer only renders forward-running spans.
pub fn format_chrono_duration(duration: i64) -> (r: String)
    ensures
        duration >= 0 ==> r@ == spec_clock_text(duration as u64),
        duration < 0 ==> r@ == spec_clock_text(0),
{
    if duration >= 0 {
        format_duration(duration as u64)
    } else {
        format_duration(0)
    }
}

} // verus!
