//! Gregorian calendar dates and the release-date rule: releases follow a
//! fixed cadence of 42 days from a fixed epoch, so the heading date of
//! version `0.m.0`'s changelog section is the epoch plus `42 * (m - 1)`
//! days.

use vstd::prelude::*;

use crate::text::{dec_str, digit_str, u64_to_string};
use crate::version::Version;

verus! {

/// A Gregorian calendar date.
#[derive(Clone, Copy, PartialEq, Eq, Structural, Debug)]
pub struct Date {
    pub year: u32,
    pub month: u8,
    pub day: u8,
}

/// A Gregorian leap year.
pub open spec fn is_leap(y: nat) -> bool {
    y % 4 == 0 && (y % 100 != 0 || y % 400 == 0)
}

/// The number of days in the given month.
pub open spec fn days_in_month(y: nat, m: nat) -> nat {
    if m == 2 {
        if is_leap(y) {
            29
        } else {
            28
        }
    } else if m == 4 || m == 6 || m == 9 || m == 11 {
        30
    } else {
        31
    }
}

/// A well-formed date: a real month, and a day that month has.
pub open spec fn date_wf(d: Date) -> bool {
    &&& 1 <= d.month <= 12
    &&& 1 <= d.day <= days_in_month(d.year as nat, d.month as nat)
}

/// The day after `d`.
pub open spec fn next_day(d: Date) -> Date {
    if (d.day as nat) < days_in_month(d.year as nat, d.month as nat) {
        Date { year: d.year, month: d.month, day: (d.day + 1) as u8 }
    } else if d.month < 12 {
        Date { year: d.year, month: (d.month + 1) as u8, day: 1 }
    } else {
        Date { year: (d.year + 1) as u32, month: 1, day: 1 }
    }
}

/// The date `n` days after `d`.
pub open spec fn plus_days(d: Date, n: nat) -> Date
    decreases n,
{
    if n == 0 {
        d
    } else {
        plus_days(next_day(d), (n - 1) as nat)
    }
}

fn is_leap_year(y: u32) -> (r: bool)
    ensures
        r == is_leap(y as nat),
{
    y % 4 == 0 && (y % 100 != 0 || y % 400 == 0)
}

fn days_in_month_of(y: u32, m: u8) -> (r: u8)
    ensures
        r as nat == days_in_month(y as nat, m as nat),
{
    if m == 2 {
        if is_leap_year(y) {
            29
        } else {
            28
        }
    } else if m == 4 || m == 6 || m == 9 || m == 11 {
        30
    } else {
        31
    }
}

/// Steps a date forward by `n` days.
pub fn add_days(d: &Date, n: u64) -> (r: Date)
    requires
        date_wf(*d),
        d.year + n < u32::MAX,
    ensures
        r == plus_days(*d, n as nat),
        date_wf(r),
{
    let mut cur: Date = *d;
    let mut i: u64 = 0;
    while i < n
        invariant
            0 <= i <= n,
            date_wf(cur),
            cur.year <= d.year + i,
            d.year + n < u32::MAX,
            plus_days(cur, (n - i) as nat) == plus_days(*d, n as nat),
        decreases n - i,
    {
        let dim = days_in_month_of(cur.year, cur.month);
        let stepped: Date = if cur.day < dim {
            Date { year: cur.year, month: cur.month, day: cur.day + 1 }
        } else if cur.month < 12 {
            Date { year: cur.year, month: cur.month + 1, day: 1 }
        } else {
            Date { year: cur.year + 1, month: 1, day: 1 }
        };
        proof {
            assert(stepped == next_day(cur));
            assert(plus_days(cur, (n - i) as nat) == plus_days(stepped, (n - i - 1) as nat));
        }
        cur = stepped;
        i += 1;
    }
    cur
}

/// A month or day number, two digits wide.
pub open spec fn pad2(n: nat) -> Seq<char> {
    if n < 10 {
        seq!['0'] + dec_str(n)
    } else {
        dec_str(n)
    }
}

/// The date in `year-month-day` form, month and day two digits wide.
pub open spec fn date_iso(d: Date) -> Seq<char> {
    dec_str(d.year as nat) + seq!['-'] + pad2(d.month as nat) + seq!['-'] + pad2(d.day as nat)
}

fn push_pad2(s: &mut String, n: u8)
    ensures
        final(s)@ == old(s)@ + pad2(n as nat),
{
    if n < 10 {
        s.append(digit_str(0));
        s.append(digit_str(n as u64));
        proof {
            assert(seq![crate::text::digit_char(0)] =~= seq!['0']);
        }
    } else {
        s.append(u64_to_string(n as u64).as_str());
    }
}

/// Renders a date as `year-month-day`.
pub fn date_to_string(d: &Date) -> (r: String)
    ensures
        r@ == date_iso(*d),
{
    proof {
        reveal_strlit("-");
        assert("-"@ =~= seq!['-']);
    }
    let mut s = u64_to_string(d.year as u64);
    s.append("-");
    push_pad2(&mut s, d.month);
    s.append("-");
    push_pad2(&mut s, d.day);
    s
}

/// The fixed epoch the release cadence counts from: the day before the
/// first stable release.
pub open spec fn release_epoch() -> Date {
    Date { year: 2015, month: 5, day: 14 }
}

/// The fixed release cadence, in days.
pub open spec fn release_cadence() -> nat {
    42
}

/// The changelog heading date for the release one minor version before
/// `v`: the epoch plus one cadence for every minor version since the
/// first.
pub fn next_version_date(v: &Version) -> (r: String)
    requires
        1 <= v.minor <= 1_000_000,
    ensures
        r@ == date_iso(plus_days(release_epoch(), (v.minor - 1) as nat * release_cadence())),
{
    let epoch = Date { year: 2015, month: 5, day: 14 };
    let days: u64 = (v.minor - 1) * 42;
    let d = add_days(&epoch, days);
    date_to_string(&d)
}

} // verus!
