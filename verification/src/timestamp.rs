//! Calendar dates and the UTC timestamp written into dumped preferences.

use vstd::prelude::*;
use crate::text::{decimal, decimal_of, string_of};

verus! {

/// Howard Hinnant's `civil_from_days`: the proleptic Gregorian (year, month, day) that is
/// `z` days after 1970-01-01, computed in 400-year eras starting on March 1st.
pub open spec fn civil_spec(z: int) -> (int, int, int) {
    let z1 = z + 719468;
    let era = z1 / 146097;
    let doe = z1 - era * 146097;
    let yoe = (doe - doe / 1460 + doe / 36524 - doe / 146096) / 365;
    let y = yoe + era * 400;
    let doy = doe - (365 * yoe + yoe / 4 - yoe / 100);
    let mp = (5 * doy + 2) / 153;
    let d = doy - (153 * mp + 2) / 5 + 1;
    let m = if mp < 10 {
        mp + 3
    } else {
        mp - 9
    };
    (if m <= 2 {
        y + 1
    } else {
        y
    }, m, d)
}

proof fn lemma_era_ranges(doe: int)
    requires
        0 <= doe <= 146096,
    ensures
        ({
            let yoe = (doe - doe / 1460 + doe / 36524 - doe / 146096) / 365;
            let doy = doe - (365 * yoe + yoe / 4 - yoe / 100);
            let mp = (5 * doy + 2) / 153;
            let d = doy - (153 * mp + 2) / 5 + 1;
            &&& 0 <= yoe <= 399
            &&& 0 <= doy <= 365
            &&& 0 <= mp <= 11
            &&& 1 <= d <= 31
        }),
{
}

/// The era of a day count fits the year arithmetic in `i32`.
pub open spec fn civil_in_range(z: int) -> bool {
    &&& z + 719468 <= i64::MAX
    &&& i32::MIN <= ((z + 719468) / 146097) * 400
    &&& ((z + 719468) / 146097) * 400 + 400 <= i32::MAX
}

/// Convert days since Unix epoch (1970-01-01) to (year, month, day).
/// Uses Howard Hinnant's algorithm.
pub fn civil_from_days(z: i64) -> (r: (i32, u32, u32))
    requires
        civil_in_range(z as int),
    ensures
        (r.0 as int, r.1 as int, r.2 as int) == civil_spec(z as int),
        1 <= r.1 <= 12,
        1 <= r.2 <= month_len(r.0 as int, r.1 as int),
        days_from_civil(r.0 as int, r.1 as int, r.2 as int) == z,
{
    proof {
        lemma_civil_day_number(z as int);
    }
    let z = z + 719468;
    let ghost era_s = z as int / 146097;
    let era: i64 = if z >= 0 {
        ((z as u64) / 146097) as i64
    } else {
        let q = ((146096 - z) as u64) / 146097;
        assert(-(q as int) == z as int / 146097) by (nonlinear_arith)
            requires
                z < 0,
                q as int == (146096 - z) / 146097,
        ;
        -(q as i64)
    };
    assert(era == era_s);
    let doe = (z - era * 146097) as u32;
    assert(doe as int == z as int - era_s * 146097);
    proof {
        lemma_era_ranges(doe as int);
    }
    let yoe = (doe - doe / 1460 + doe / 36524 - doe / 146096) / 365;
    let yr = yoe as i32 + (era as i32) * 400;
    let doy = doe - (365 * yoe + yoe / 4 - yoe / 100);
    let mp = (5 * doy + 2) / 153;
    let d = doy - (153 * mp + 2) / 5 + 1;
    let mo = if mp < 10 {
        mp + 3
    } else {
        mp - 9
    };
    let yr = if mo <= 2 {
        yr + 1
    } else {
        yr
    };
    (yr, mo, d)
}

/// `n` in decimal, padded with leading zeros to `w` digits (`format!("{n:0w$}")`).
pub open spec fn zpad(n: nat, w: nat) -> Seq<char> {
    let d = decimal(n);
    if d.len() < w {
        Seq::new((w - d.len()) as nat, |i: int| '0') + d
    } else {
        d
    }
}

/// `YYYY-MM-DD HH:MM:SS.mmm UTC` for a time given in milliseconds since the Unix epoch.
pub open spec fn spec_timestamp(total_ms: int) -> Seq<char> {
    let secs = total_ms / 1000;
    let ms = total_ms % 1000;
    let day_secs = secs % 86400;
    let days = secs / 86400;
    let h = day_secs / 3600;
    let m = (day_secs % 3600) / 60;
    let s = day_secs % 60;
    let c = civil_spec(days);
    zpad(c.0 as nat, 4) + seq!['-'] + zpad(c.1 as nat, 2) + seq!['-'] + zpad(c.2 as nat, 2) + seq![' ']
        + zpad(h as nat, 2) + seq![':'] + zpad(m as nat, 2) + seq![':'] + zpad(s as nat, 2) + seq!['.']
        + zpad(ms as nat, 3) + seq![' ', 'U', 'T', 'C']
}

fn push_padded(v: &mut Vec<char>, n: usize, w: usize)
    ensures
        final(v)@ == old(v)@ + zpad(n as nat, w as nat),
{
    let d = decimal_of(n);
    let ghost start = v@;
    let mut k: usize = d.len();
    while k < w
        invariant
            d.len() <= k <= w || (k == d.len() && w < d.len()),
            v@ == start + Seq::new((k - d.len()) as nat, |i: int| '0'),
        decreases w - k,
    {
        v.push('0');
        k = k + 1;
        assert(v@ =~= start + Seq::new((k - d.len()) as nat, |i: int| '0'));
    }
    let ghost mid = v@;
    let mut i: usize = 0;
    while i < d.len()
        invariant
            i <= d.len(),
            v@ == mid + d@.take(i as int),
        decreases d.len() - i,
    {
        v.push(d[i]);
        i = i + 1;
        assert(v@ =~= mid + d@.take(i as int));
    }
    assert(d@.take(d.len() as int) =~= d@);
    assert(v@ =~= start + zpad(n as nat, w as nat));
}

/// The UTC timestamp for `total_ms` milliseconds since the Unix epoch:
/// "YYYY-MM-DD HH:MM:SS.mmm UTC".
pub fn format_utc_timestamp(total_ms: i64) -> (r: String)
    requires
        total_ms >= 0,
    ensures
        r@ == spec_timestamp(total_ms as int),
{
    let t = total_ms as u64;
    let secs = t / 1000;
    let ms = t % 1000;
    let day_secs = secs % 86400;
    let days = secs / 86400;
    let h = day_secs / 3600;
    let m = (day_secs % 3600) / 60;
    let s = day_secs % 60;
    assert(days <= 106751991167) by (nonlinear_arith)
        requires
            days == (t / 1000) / 86400,
            t <= i64::MAX,
    ;
    assert(civil_in_range(days as int)) by (nonlinear_arith)
        requires
            0 <= days <= 106751991167,
    ;
    let (y, mo, d) = civil_from_days(days as i64);
    assert(y >= 0) by (nonlinear_arith)
        requires
            (y as int, mo as int, d as int) == civil_spec(days as int),
            days >= 0,
    ;
    let mut v: Vec<char> = Vec::new();
    push_padded(&mut v, y as usize, 4);
    v.push('-');
    push_padded(&mut v, mo as usize, 2);
    v.push('-');
    push_padded(&mut v, d as usize, 2);
    v.push(' ');
    push_padded(&mut v, h as usize, 2);
    v.push(':');
    push_padded(&mut v, m as usize, 2);
    v.push(':');
    push_padded(&mut v, s as usize, 2);
    v.push('.');
    push_padded(&mut v, ms as usize, 3);
    v.push(' ');
    v.push('U');
    v.push('T');
    v.push('C');
    assert(v@ =~= spec_timestamp(total_ms as int));
    string_of(&v)
}


// ── the calendar ─────────────────────────────────────────────────────────────

/// A leap year of the proleptic Gregorian calendar.
pub open spec fn is_leap_year(y: int) -> bool {
    y % 4 == 0 && (y % 100 != 0 || y % 400 == 0)
}

/// The number of leap years `k` with `0 <= k < y` (counted negatively when `y < 0`).
pub open spec fn leap_years_before(y: int) -> int {
    (y + 3) / 4 - (y + 99) / 100 + (y + 399) / 400
}

/// The number of days of month `m` (1 to 12) of year `y`.
pub open spec fn month_len(y: int, m: int) -> int {
    if m == 2 {
        if is_leap_year(y) {
            29
        } else {
            28
        }
    } else if m == 4 || m == 6 || m == 9 || m == 11 {
        30
    } else {
        31
    }
}

/// The number of days of year `y` before the first of month `m` (1 to 12).
pub open spec fn days_before_month(y: int, m: int) -> int {
    let common: int = if m <= 1 {
        0
    } else if m == 2 {
        31
    } else if m == 3 {
        59
    } else if m == 4 {
        90
    } else if m == 5 {
        120
    } else if m == 6 {
        151
    } else if m == 7 {
        181
    } else if m == 8 {
        212
    } else if m == 9 {
        243
    } else if m == 10 {
        273
    } else if m == 11 {
        304
    } else {
        334
    };
    if m > 2 && is_leap_year(y) {
        common + 1
    } else {
        common
    }
}

/// The day number of a date: how many days it lies after 1970-01-01.
pub open spec fn days_from_civil(y: int, m: int, d: int) -> int {
    365 * (y - 1970) + leap_years_before(y) - leap_years_before(1970) + days_before_month(y, m) + d - 1
}

#[verifier::spinoff_prover]
#[verifier::rlimit(50)]
proof fn lemma_leaps_in_era(era: int, yoe: int)
    requires
        0 <= yoe <= 399,
    ensures
        leap_years_before(yoe + era * 400 + 1) == era * 97 + yoe / 4 - yoe / 100 + 1,
        leap_years_before(yoe + era * 400 + 1) - leap_years_before(yoe + era * 400) == if is_leap_year(
            yoe + era * 400,
        ) {
            1int
        } else {
            0int
        },
        is_leap_year(yoe + era * 400 + 1) == is_leap_year(yoe + 1),
{
    let yy = yoe + era * 400;
    assert((yy + 1) % 4 == (yoe + 1) % 4);
    assert((yy + 1) % 100 == (yoe + 1) % 100);
    assert((yy + 1) % 400 == (yoe + 1) % 400);
    assert((yy + 4) / 4 == era * 100 + yoe / 4 + 1);
    assert((yy + 100) / 100 == era * 4 + yoe / 100 + 1);
    assert((yy + 400) / 400 == era + 1);
    assert((yy + 3) / 4 == (yy + 4) / 4 - if yy % 4 == 0 { 1int } else { 0int });
    assert((yy + 99) / 100 == (yy + 100) / 100 - if yy % 100 == 0 { 1int } else { 0int });
    assert((yy + 399) / 400 == (yy + 400) / 400 - if yy % 400 == 0 { 1int } else { 0int });
}

/// Where month `mp` of a year that starts in March begins, and how long it is.
#[verifier::spinoff_prover]
#[verifier::rlimit(50)]
proof fn lemma_march_month(y: int, doy: int, mp: int)
    requires
        0 <= doy <= 365,
        0 <= mp <= 11,
        153 * mp <= 5 * doy + 2 < 153 * mp + 153,
    ensures
        ({
            let d = doy - (153 * mp + 2) / 5 + 1;
            let leap: int = if is_leap_year(y) { 1 } else { 0 };
            &&& 1 <= d
            &&& mp < 10 ==> d <= month_len(y, mp + 3) && days_before_month(y, mp + 3) == 59 + leap + (153 * mp
                + 2) / 5
            &&& mp == 10 ==> d <= 31 && days_before_month(y + 1, 1) == (153 * mp + 2) / 5 - 306
            &&& mp == 11 ==> d <= 29 && days_before_month(y + 1, 2) == (153 * mp + 2) / 5 - 306
        }),
{
    if mp == 0 {
        assert((153 * mp + 2) / 5 == 0);
    } else if mp == 1 {
        assert((153 * mp + 2) / 5 == 31);
    } else if mp == 2 {
        assert((153 * mp + 2) / 5 == 61);
    } else if mp == 3 {
        assert((153 * mp + 2) / 5 == 92);
    } else if mp == 4 {
        assert((153 * mp + 2) / 5 == 122);
    } else if mp == 5 {
        assert((153 * mp + 2) / 5 == 153);
    } else if mp == 6 {
        assert((153 * mp + 2) / 5 == 184);
    } else if mp == 7 {
        assert((153 * mp + 2) / 5 == 214);
    } else if mp == 8 {
        assert((153 * mp + 2) / 5 == 245);
    } else if mp == 9 {
        assert((153 * mp + 2) / 5 == 275);
    } else if mp == 10 {
        assert((153 * mp + 2) / 5 == 306);
    } else {
        assert((153 * mp + 2) / 5 == 337);
    }
}

/// The day after the 365th of a March-based year `k` of an era still falls in year `k`
/// only when year `k + 1` is a leap year.
#[verifier::spinoff_prover]
#[verifier::rlimit(50)]
proof fn lemma_year_end(k: int)
    requires
        0 <= k <= 399,
    ensures
        ({
            let doe = 365 * (k + 1) + k / 4 - k / 100;
            (doe - doe / 1460 + doe / 36524 - doe / 146096) / 365 == k ==> is_leap_year(k + 1)
        }),
{
    let doe = 365 * (k + 1) + k / 4 - k / 100;
    let a = k / 4;
    let b = k % 4;
    let c = k / 100;
    let e = k % 100;
    assert(a == 25 * c + e / 4);
    assert(doe == 1460 * a + 365 * (b + 1) + a - c);
    assert(doe / 1460 == a + if b == 3 { 1int } else { 0int });
    assert(doe == 36524 * c + 365 * (e + 1) + e / 4);
    assert(doe / 36524 == c + if e == 99 { 1int } else { 0int });
    assert(doe / 146096 == if k == 399 { 1int } else { 0int });
    if e == 99 {
        assert(b == 3);
    }
}

/// `civil_spec(z)` is the date `z` days after 1970-01-01: a valid date (month 1 to 12,
/// day 1 to the length of that month) whose day number is `z`.
/// Within an era, a March-based year reaches a 366th day only when the next year is a
/// leap year.
#[verifier::spinoff_prover]
proof fn lemma_doy_bound(doe: int)
    requires
        0 <= doe <= 146096,
    ensures
        ({
            let yoe = (doe - doe / 1460 + doe / 36524 - doe / 146096) / 365;
            let doy = doe - (365 * yoe + yoe / 4 - yoe / 100);
            doy == 365 ==> is_leap_year(yoe + 1)
        }),
{
    lemma_era_ranges(doe);
    let yoe = (doe - doe / 1460 + doe / 36524 - doe / 146096) / 365;
    let doy = doe - (365 * yoe + yoe / 4 - yoe / 100);
    if doy == 365 {
        lemma_year_end(yoe);
    }
}

#[verifier::spinoff_prover]
#[verifier::rlimit(50)]
pub proof fn lemma_civil_day_number(z: int)
    ensures
        ({
            let (y, m, d) = civil_spec(z);
            &&& 1 <= m <= 12
            &&& 1 <= d <= month_len(y, m)
            &&& days_from_civil(y, m, d) == z
        }),
{
    let z1 = z + 719468;
    let era = z1 / 146097;
    let doe = z1 - era * 146097;
    assert(0 <= doe <= 146096);
    lemma_era_ranges(doe);
    let yoe = (doe - doe / 1460 + doe / 36524 - doe / 146096) / 365;
    let doy = doe - (365 * yoe + yoe / 4 - yoe / 100);
    let mp = (5 * doy + 2) / 153;
    let yy = yoe + era * 400;
    lemma_leaps_in_era(era, yoe);
    lemma_march_month(yy, doy, mp);
    assert(leap_years_before(1970) == 478);
    assert(doe == 365 * yoe + yoe / 4 - yoe / 100 + doy);
    lemma_doy_bound(doe);
    let d = doy - (153 * mp + 2) / 5 + 1;
    let m = if mp < 10 { mp + 3 } else { mp - 9 };
    let y = if m <= 2 { yy + 1 } else { yy };
    assert(civil_spec(z) == (y, m, d));
    assert(z == era * 146097 + doe - 719468);
    assert(365 * (yy + 1 - 1970) + leap_years_before(yy + 1) - 478 + 59 + doy - 365 == z);
    if mp < 10 {
        assert(days_from_civil(y, m, d) == 365 * (yy - 1970) + leap_years_before(yy) - 478
            + days_before_month(yy, m) + d - 1);
    } else {
        assert(days_from_civil(y, m, d) == 365 * (yy + 1 - 1970) + leap_years_before(yy + 1) - 478
            + days_before_month(yy + 1, m) + d - 1);
    }
}

} // verus!
