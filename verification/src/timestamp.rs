//! RFC 3339 UTC timestamps from seconds since the Unix epoch.

use vstd::prelude::*;

use crate::text::{decimal, lemma_decimal, push_char, push_decimal, zero_padded};

verus! {

/// The proleptic Gregorian date `days` days after 1970-01-01, as
/// (year, month, day), computed the way Howard Hinnant's `civil_from_days`
/// does: shift to years starting in March, split into 400-year eras, and read
/// year, day of year and month off the era.
pub open spec fn civil_from_days(days: int) -> (int, int, int) {
    let z = days + 719468;
    let era = z / 146097;
    let doe = z % 146097;
    let yoe = (doe - doe / 1460 + doe / 36524 - doe / 146096) / 365;
    let y = yoe + era * 400;
    let doy = doe - (365 * yoe + yoe / 4 - yoe / 100);
    let mp = (5 * doy + 2) / 153;
    let d = doy - (153 * mp + 2) / 5 + 1;
    let m = if mp < 10 { mp + 3 } else { mp - 9 };
    (if m <= 2 { y + 1 } else { y }, m, d)
}

/// `YYYY-MM-DDTHH:MM:SSZ` for the given fields.
pub open spec fn rfc3339_text(y: nat, mo: nat, d: nat, h: nat, mi: nat, s: nat) -> Seq<char> {
    zero_padded(y, 4) + "-"@ + zero_padded(mo, 2) + "-"@ + zero_padded(d, 2) + "T"@
        + zero_padded(h, 2) + ":"@ + zero_padded(mi, 2) + ":"@ + zero_padded(s, 2) + "Z"@
}

/// The timestamp text for `secs` seconds after the epoch.
pub open spec fn rfc3339_spec(secs: nat) -> Seq<char> {
    let date = civil_from_days((secs / 86400) as int);
    let t = secs % 86400;
    rfc3339_text(date.0 as nat, date.1 as nat, date.2 as nat, t / 3600, (t % 3600) / 60, t % 60)
}

/// Within an era, the day of the (March-based) year lies in `0..=365`.
proof fn lemma_day_of_year_bounds(doe: int)
    requires
        0 <= doe <= 146096,
    ensures
        ({
            let yoe = (doe - doe / 1460 + doe / 36524 - doe / 146096) / 365;
            let doy = doe - (365 * yoe + yoe / 4 - yoe / 100);
            &&& 0 <= yoe <= 399
            &&& 0 <= doy <= 365
        }),
{
    let q1 = doe / 1460;
    let q2 = doe / 36524;
    let q3 = doe / 146096;
    let t = doe - q1 + q2 - q3;
    let yoe = t / 365;
    let a = yoe / 4;
    let b = yoe / 100;
    assert(0 <= doe - 1460 * q1 < 1460);
    assert(0 <= doe - 36524 * q2 < 36524);
    assert(0 <= doe - 146096 * q3 < 146096);
    assert(0 <= t - 365 * yoe < 365);
    assert(0 <= yoe - 4 * a < 4);
    assert(0 <= yoe - 100 * b < 100);
    assert(0 <= yoe <= 399);
    assert(0 <= doe - (365 * yoe + a - b) <= 365);
}

/// Appends `n` in decimal, left-padded with zeros to `width` characters.
fn push_padded(s: &mut String, n: u64, width: u64)
    requires
        width <= 4,
    ensures
        final(s)@ == old(s)@ + zero_padded(n as nat, width as nat),
{
    proof { lemma_decimal(n as nat); }
    let digits: u64 = if n < 10 { 1 } else if n < 100 { 2 } else if n < 1000 { 3 } else { 4 };
    proof {
        lemma_decimal_len(n as nat);
    }
    let mut k = digits;
    let ghost s0 = s@;
    while k < width
        invariant
            digits <= k <= width || (width < digits && k == digits),
            digits as nat == (if decimal(n as nat).len() >= 4 { 4 } else { decimal(n as nat).len() }),
            s@ == s0 + Seq::new((k - digits) as nat, |i: int| '0'),
        decreases width - k,
    {
        push_char(s, '0');
        k += 1;
        assert(s@ =~= s0 + Seq::new((k - digits) as nat, |i: int| '0'));
    }
    let ghost pad = s@;
    push_decimal(s, n);
    proof {
        let d = decimal(n as nat);
        if d.len() >= width {
            assert(k == digits || d.len() >= 4);
            assert(Seq::new((k - digits) as nat, |i: int| '0') =~= Seq::<char>::empty());
            assert(s@ =~= s0 + zero_padded(n as nat, width as nat));
        } else {
            assert(k == width);
            assert(s@ =~= s0 + zero_padded(n as nat, width as nat));
        }
    }
}

/// The length of decimal notation.
proof fn lemma_decimal_len(n: nat)
    ensures
        n < 10 ==> decimal(n).len() == 1,
        10 <= n < 100 ==> decimal(n).len() == 2,
        100 <= n < 1000 ==> decimal(n).len() == 3,
        1000 <= n ==> decimal(n).len() >= 4,
    decreases n,
{
    lemma_decimal(n);
    if n >= 10 {
        lemma_decimal_len(n / 10);
    }
}

/// Minimal RFC 3339 UTC timestamp for `secs` seconds after the Unix epoch.
///
/// The date written is the proleptic Gregorian calendar date that lies
/// `secs / 86400` days after 1970-01-01; the time is the rest of the seconds.
pub fn rfc3339_from_unix_secs(secs: u64) -> (text: String)
    ensures
        text@ == rfc3339_spec(secs as nat),
        ({
            let (y, m, d) = civil_from_days((secs / 86400) as int);
            &&& y >= 1970
            &&& 1 <= m <= 12
            &&& 1 <= d <= month_len(y, m)
            &&& days_since_epoch(y, m, d) == (secs / 86400) as int
        }),
{
    proof {
        law_timestamp_date_is_calendar_date((secs / 86400) as int);
    }
    // Convert epoch seconds to date/time components.
    let days = secs / 86400;
    let time_secs = secs % 86400;
    let h = time_secs / 3600;
    let m = (time_secs % 3600) / 60;
    let s = time_secs % 60;

    // Civil date from day count (algorithm from Howard Hinnant).
    let z: u64 = days + 719468;
    let era: u64 = z / 146097;
    let doe: u64 = z % 146097;
    proof { lemma_day_of_year_bounds(doe as int); }
    let yoe: u64 = (doe - doe / 1460 + doe / 36524 - doe / 146096) / 365;
    let y: u64 = yoe + era * 400;
    let doy: u64 = doe - (365 * yoe + yoe / 4 - yoe / 100);
    let mp: u64 = (5 * doy + 2) / 153;
    let d: u64 = doy - (153 * mp + 2) / 5 + 1;
    let mo: u64 = if mp < 10 { mp + 3 } else { mp - 9 };
    let y: u64 = if mo <= 2 { y + 1 } else { y };

    let mut text = String::new();
    push_padded_year(&mut text, y);
    text.append("-");
    push_padded(&mut text, mo, 2);
    text.append("-");
    push_padded(&mut text, d, 2);
    text.append("T");
    push_padded(&mut text, h, 2);
    text.append(":");
    push_padded(&mut text, m, 2);
    text.append(":");
    push_padded(&mut text, s, 2);
    text.append("Z");
    proof {
        let date = civil_from_days((secs / 86400) as int);
        assert(date.0 == y as int && date.1 == mo as int && date.2 == d as int);
        assert(text@ =~= rfc3339_spec(secs as nat));
    }
    text
}

/// Appends a year padded to at least four digits.
fn push_padded_year(s: &mut String, y: u64)
    ensures
        final(s)@ == old(s)@ + zero_padded(y as nat, 4),
{
    if y >= 1000 {
        proof {
            lemma_decimal_len(y as nat);
        }
        push_decimal(s, y);
    } else {
        push_padded(s, y, 4);
    }
}

// ----------------------------------------------------------------------------
// The Gregorian calendar
// ----------------------------------------------------------------------------

/// Leap years of the Gregorian calendar.
pub open spec fn is_leap(y: int) -> bool {
    y % 4 == 0 && (y % 100 != 0 || y % 400 == 0)
}

/// Days in year `y`.
pub open spec fn year_len(y: int) -> int {
    if is_leap(y) { 366 } else { 365 }
}

/// Days in month `m` (1-based) of year `y`.
pub open spec fn month_len(y: int, m: int) -> int {
    if m == 2 {
        if is_leap(y) { 29 } else { 28 }
    } else if m == 4 || m == 6 || m == 9 || m == 11 {
        30
    } else {
        31
    }
}

/// Days from 1970-01-01 to the first day of year `y` (`y >= 1970`).
pub open spec fn days_before_year(y: int) -> int
    decreases y - 1970,
{
    if y <= 1970 {
        0
    } else {
        days_before_year(y - 1) + year_len(y - 1)
    }
}

/// Days from the first of January of `y` to the first day of month `m`.
pub open spec fn days_before_month(y: int, m: int) -> int
    decreases m,
{
    if m <= 1 {
        0
    } else {
        days_before_month(y, m - 1) + month_len(y, m - 1)
    }
}

/// Days from 1970-01-01 to the date `y-m-d`.
pub open spec fn days_since_epoch(y: int, m: int, d: int) -> int {
    days_before_year(y) + days_before_month(y, m) + d - 1
}

/// Leap years in `1..=n`.
spec fn leaps_through(n: int) -> int {
    n / 4 - n / 100 + n / 400
}

proof fn lemma_leaps_step(y: int)
    requires
        y >= 1,
    ensures
        leaps_through(y) == leaps_through(y - 1) + (if is_leap(y) { 1int } else { 0int }),
{
    assert(y / 4 == (y - 1) / 4 + (if y % 4 == 0 { 1int } else { 0int }));
    assert(y / 100 == (y - 1) / 100 + (if y % 100 == 0 { 1int } else { 0int }));
    assert(y / 400 == (y - 1) / 400 + (if y % 400 == 0 { 1int } else { 0int }));
    if y % 400 == 0 {
        assert(y % 100 == 0 && y % 4 == 0);
    }
    if y % 100 == 0 {
        assert(y % 4 == 0);
    }
}

proof fn lemma_days_before_year(y: int)
    requires
        y >= 1970,
    ensures
        days_before_year(y) == 365 * (y - 1970) + leaps_through(y - 1) - 477,
    decreases y - 1970,
{
    if y > 1970 {
        lemma_days_before_year(y - 1);
        lemma_leaps_step(y - 1);
    } else {
        assert(leaps_through(1969) == 477);
    }
}

/// Days before March 1 of year `y`.
proof fn lemma_days_before_march(y: int)
    ensures
        days_before_month(y, 3) == 59 + (if is_leap(y) { 1int } else { 0int }),
{
    assert(days_before_month(y, 1) == 0);
    assert(days_before_month(y, 2) == 31);
}

/// Days from March 1 to the start of the month `mp` months later, for a
/// month of the same year (`mp < 10`).
proof fn lemma_days_before_month_after_march(y: int, mp: int)
    requires
        0 <= mp < 10,
    ensures
        days_before_month(y, mp + 3) == days_before_month(y, 3) + (153 * mp + 2) / 5,
    decreases mp,
{
    if mp > 0 {
        lemma_days_before_month_after_march(y, mp - 1);
        assert(days_before_month(y, mp + 3) == days_before_month(y, mp + 2) + month_len(y, mp + 2));
    }
}

/// Within an era, the day of the March-based year is below that year's
/// length, which includes the 29th of February of the following year.
#[verifier::rlimit(80)]
proof fn lemma_day_of_year_in_year(doe: int)
    requires
        0 <= doe <= 146096,
    ensures
        ({
            let yoe = (doe - doe / 1460 + doe / 36524 - doe / 146096) / 365;
            let doy = doe - (365 * yoe + yoe / 4 - yoe / 100);
            doy <= 364 + (if (yoe + 1) % 4 == 0 && ((yoe + 1) % 100 != 0 || yoe == 399) { 1int } else { 0int })
        }),
{
    let q1 = doe / 1460;
    let q2 = doe / 36524;
    let q3 = doe / 146096;
    let t = doe - q1 + q2 - q3;
    let yoe = t / 365;
    let a = yoe / 4;
    let b = yoe / 100;
    assert(0 <= doe - 1460 * q1 < 1460);
    assert(0 <= doe - 36524 * q2 < 36524);
    assert(0 <= doe - 146096 * q3 < 146096);
    assert(0 <= t - 365 * yoe < 365);
    assert(0 <= yoe - 4 * a < 4);
    assert(0 <= yoe - 100 * b < 100);
    let leap_next = (yoe + 1) % 4 == 0 && ((yoe + 1) % 100 != 0 || yoe == 399);
    assert(doe - (365 * yoe + a - b) <= 364 + (if leap_next { 1int } else { 0int }));
}

/// Month and day from the day of a March-based year.
proof fn lemma_month_day(doy: int, leap_next: bool)
    requires
        0 <= doy <= 364 + (if leap_next { 1int } else { 0int }),
    ensures
        ({
            let mp = (5 * doy + 2) / 153;
            let d = doy - (153 * mp + 2) / 5 + 1;
            &&& 0 <= mp <= 11
            &&& 1 <= d
            &&& mp < 10 ==> d <= month_len(0, mp + 3)
            &&& mp == 10 ==> d <= 31
            &&& mp == 11 ==> d <= 28 + (if leap_next { 1int } else { 0int })
        }),
{
    let mp = (5 * doy + 2) / 153;
    assert(0 <= 5 * doy + 2 - 153 * mp < 153);
    let e = (153 * mp + 2) / 5;
    assert(0 <= 153 * mp + 2 - 5 * e < 5);
}

/// The date that the timestamp computation produces is the calendar date
/// `days` days after 1970-01-01: a valid month and day of a year from 1970
/// on, and exactly `days` days after the epoch.
pub proof fn law_timestamp_date_is_calendar_date(days: int)
    requires
        days >= 0,
    ensures
        ({
            let (y, m, d) = civil_from_days(days);
            &&& y >= 1970
            &&& 1 <= m <= 12
            &&& 1 <= d <= month_len(y, m)
            &&& days_since_epoch(y, m, d) == days
        }),
{
    let z = days + 719468;
    let era = z / 146097;
    let doe = z % 146097;
    assert(z == 146097 * era + doe && 0 <= doe < 146097);
    lemma_day_of_year_bounds(doe);
    lemma_day_of_year_in_year(doe);
    let yoe = (doe - doe / 1460 + doe / 36524 - doe / 146096) / 365;
    let yp = yoe + era * 400;
    let doy = doe - (365 * yoe + yoe / 4 - yoe / 100);
    let leap_next = (yoe + 1) % 4 == 0 && ((yoe + 1) % 100 != 0 || yoe == 399);
    assert(era >= 4);
    assert(yp >= 1600);
    // The next year is leap exactly when `leap_next` says so.
    assert(is_leap(yp + 1) == leap_next) by {
        assert((yp + 1) % 4 == (yoe + 1) % 4);
        assert((yp + 1) % 100 == (yoe + 1) % 100);
        assert((yp + 1) % 400 == (yoe + 1) % 400);
    }
    lemma_month_day(doy, leap_next);
    let mp = (5 * doy + 2) / 153;
    let d = doy - (153 * mp + 2) / 5 + 1;
    let m = if mp < 10 { mp + 3 } else { mp - 9 };
    let y = if m <= 2 { yp + 1 } else { yp };
    assert(civil_from_days(days) == (y, m, d));
    // March 1 of `yp` in days since the epoch.
    let march1 = 146097 * era + 365 * yoe + yoe / 4 - yoe / 100 - 719468;
    assert(days == march1 + doy);
    // Leap years through `yp`, counted along the era.
    assert(leaps_through(yp) == 97 * era + yoe / 4 - yoe / 100) by {
        assert(yp / 4 == 100 * era + yoe / 4);
        assert(yp / 100 == 4 * era + yoe / 100);
        assert(yp / 400 == era);
    }
    if yp >= 1970 {
        lemma_days_before_year(yp);
        lemma_leaps_step(yp);
        lemma_days_before_march(yp);
        assert(days_before_year(yp) + days_before_month(yp, 3) == march1);
    }
    if mp < 10 {
        assert(yp >= 1970) by {
            if yp < 1970 {
                assert(march1 < 0);
            }
        }
        lemma_days_before_month_after_march(yp, mp);
        assert(month_len(yp, mp + 3) == month_len(0, mp + 3));
    } else {
        lemma_days_before_year(yp + 1);
        lemma_leaps_step(yp);
        assert(days_before_month(yp + 1, 1) == 0);
        assert(days_before_month(yp + 1, 2) == 31);
        if yp < 1970 {
            // then March 1 of `yp` precedes the epoch by more than ten months
            assert(yp == 1969);
            assert(march1 == -306);
        } else {
            lemma_days_before_year(yp);
            lemma_days_before_march(yp);
        }
    }
}

} // verus!
