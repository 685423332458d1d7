//! Times of day and dates of the Gregorian calendar.
pub mod laws;

use vstd::prelude::*;
use vstd::string::*;

use crate::text;
use crate::text::number_text;

verus! {

/// Whether a year has a leap day.
pub open spec fn is_leap(y: int) -> bool {
    y % 4 == 0 && (y % 100 != 0 || y % 400 == 0)
}

/// The number of days of a month.
pub open spec fn month_days(y: int, m: int) -> int {
    if m == 2 {
        if is_leap(y) {
            29
        } else {
            28
        }
    } else if m == 4 || m == 6 || m == 9 || m == 11 {
        30
    } else {
        31
    }
}

/// The number of days of a year before a month of it.
pub open spec fn days_before_month(y: int, m: int) -> int
    decreases m,
{
    if m <= 1 {
        0
    } else {
        days_before_month(y, m - 1) + month_days(y, m - 1)
    }
}

/// The number of days from the start of the year 1 to the start of a year.
pub open spec fn days_before_year(y: int) -> int {
    365 * (y - 1) + (y - 1) / 4 - (y - 1) / 100 + (y - 1) / 400
}

/// The number of days from the start of the year 1970 to a date.
pub open spec fn day_number(y: int, m: int, d: int) -> int {
    days_before_year(y) + days_before_month(y, m) + d - 1 - days_before_year(1970)
}

/// Whether a date is that of the day numbered `z`.
pub open spec fn is_date(z: int, y: int, m: int, d: int) -> bool {
    &&& 1 <= m <= 12
    &&& 1 <= d <= month_days(y, m)
    &&& day_number(y, m, d) == z
}

pub proof fn lemma_month_table(y: int)
    ensures
        ({
            let feb = if is_leap(y) {
                29int
            } else {
                28
            };
            &&& days_before_month(y, 1) == 0
            &&& days_before_month(y, 2) == 31
            &&& days_before_month(y, 3) == 31 + feb
            &&& days_before_month(y, 4) == 62 + feb
            &&& days_before_month(y, 5) == 92 + feb
            &&& days_before_month(y, 6) == 123 + feb
            &&& days_before_month(y, 7) == 153 + feb
            &&& days_before_month(y, 8) == 184 + feb
            &&& days_before_month(y, 9) == 215 + feb
            &&& days_before_month(y, 10) == 245 + feb
            &&& days_before_month(y, 11) == 276 + feb
            &&& days_before_month(y, 12) == 306 + feb
        }),
{
    reveal_with_fuel(days_before_month, 13);
}

/// A day has only one date.
pub proof fn law_one_date(z: int, y: int, m: int, d: int, y2: int, m2: int, d2: int)
    requires
        is_date(z, y, m, d),
        is_date(z, y2, m2, d2),
    ensures
        y == y2,
        m == m2,
        d == d2,
{
    lemma_month_table(y);
    lemma_month_table(y2);
    lemma_year_grows(y, y2);
    lemma_year_grows(y2, y);
}

/// A year ends before a later one begins.
proof fn lemma_year_grows(y: int, y2: int)
    ensures
        y < y2 ==> days_before_year(y) + 365 + if is_leap(y) {
            1int
        } else {
            0
        } <= days_before_year(y2),
{
    assert(days_before_year(y + 1) == days_before_year(y) + 365 + if is_leap(y) {
        1int
    } else {
        0
    });
    if y + 1 < y2 {
        let a = y;
        let k = y2 - 1 - a;
        assert((a + k) / 4 >= a / 4);
        assert((a + k) / 400 >= a / 400);
        assert((a + k) / 100 <= a / 100 + k);
    }
}

/// The year of an era of 400 years, counted from March, in which a day of it is.
proof fn lemma_year_of_era(doe: int, yoe: int)
    requires
        0 <= doe < 146097,
        yoe == (doe - doe / 1460 + doe / 36524 - doe / 146096) / 365,
    ensures
        0 <= yoe <= 399,
        365 * yoe + yoe / 4 - yoe / 100 <= doe,
        doe - (365 * yoe + yoe / 4 - yoe / 100) <= 365,
        doe - (365 * yoe + yoe / 4 - yoe / 100) == 365 ==> (yoe + 1) % 4 == 0 && ((yoe + 1) % 100
            != 0 || yoe == 399),
{
}

/// The number of days from the start of the year 1 to March of a year.
proof fn lemma_march(era: int, yoe: int)
    requires
        0 <= yoe <= 399,
    ensures
        ({
            let y = 400 * era + yoe;
            days_before_year(y) + 31 + month_days(y, 2) == 146097 * era + 365 * yoe + yoe / 4 - yoe
                / 100 - 306
        }),
{
    let y = 400 * era + yoe;
    assert((y - 1) / 400 == era + (yoe - 1) / 400);
    assert((y - 1) / 100 == 4 * era + (yoe - 1) / 100);
    assert((y - 1) / 4 == 100 * era + (yoe - 1) / 4);
    assert(y % 4 == yoe % 4);
    assert(y % 100 == yoe % 100);
    assert(y % 400 == yoe % 400);
}

/// The start of the year after: the days from March to it.
proof fn lemma_january(era: int, yoe: int)
    requires
        0 <= yoe <= 399,
    ensures
        ({
            let y = 400 * era + yoe;
            days_before_year(y + 1) == days_before_year(y) + 31 + month_days(y, 2) + 306
        }),
{
    let y = 400 * era + yoe;
    assert(y % 4 == yoe % 4);
    assert(y % 100 == yoe % 100);
    assert(y % 400 == yoe % 400);
    assert((y - 1) / 400 == era + (yoe - 1) / 400);
    assert((y - 1) / 100 == 4 * era + (yoe - 1) / 100);
    assert((y - 1) / 4 == 100 * era + (yoe - 1) / 4);
    assert(y / 400 == era + yoe / 400);
    assert(y / 100 == 4 * era + yoe / 100);
    assert(y / 4 == 100 * era + yoe / 4);
}

proof fn lemma_date(z: int, era: int, doe: int, yoe: int, doy: int, mp: int)
    requires
        z + 719468 == 146097 * era + doe,
        0 <= doe < 146097,
        yoe == (doe - doe / 1460 + doe / 36524 - doe / 146096) / 365,
        doy == doe - (365 * yoe + yoe / 4 - yoe / 100),
        mp == (5 * doy + 2) / 153,
    ensures
        0 <= yoe <= 399,
        0 <= doy <= 365,
        0 <= mp <= 11,
        ({
            let d = doy - (153 * mp + 2) / 5 + 1;
            let m = if mp < 10 {
                mp + 3
            } else {
                mp - 9
            };
            let y = 400 * era + yoe + if m <= 2 {
                1int
            } else {
                0
            };
            is_date(z, y, m, d)
        }),
{
    lemma_year_of_era(doe, yoe);
    let y = 400 * era + yoe;
    lemma_march(era, yoe);
    lemma_january(era, yoe);
    lemma_month_table(y);
    lemma_month_table(y + 1);
    assert(days_before_year(1970) == 719162);
    assert((y + 1) % 4 == (yoe + 1) % 4);
    assert((y + 1) % 100 == (yoe + 1) % 100);
    assert((y + 1) % 400 == (yoe + 1) % 400);
}

/// The year, the month and the day of the day numbered `z`, counted from the
/// first day of the year 1970.
pub fn civil_from_days(z: i64) -> (out: (i64, u64, u64))
    requires
        i64::MIN + 146096 <= z + 719468 <= i64::MAX,
    ensures
        is_date(z as int, out.0 as int, out.1 as int, out.2 as int),
{
    let shifted = z + 719468;
    let era = if shifted >= 0 {
        shifted / 146097
    } else {
        -((146096 - shifted) / 146097)
    };
    assert(0 <= shifted - era * 146097 < 146097);
    let doe = (shifted - era * 146097) as u64;
    let yoe = (doe - doe / 1460 + doe / 36524 - doe / 146096) / 365;
    proof {
        lemma_year_of_era(doe as int, yoe as int);
    }
    let y = yoe as i64 + era * 400;
    let doy = doe - (365 * yoe + yoe / 4 - yoe / 100);
    let mp = (5 * doy + 2) / 153;
    proof {
        lemma_date(z as int, era as int, doe as int, yoe as int, doy as int, mp as int);
    }
    let d = doy - (153 * mp + 2) / 5 + 1;
    let mo = if mp < 10 {
        mp + 3
    } else {
        mp - 9
    };
    (
        if mo <= 2 {
            y + 1
        } else {
            y
        },
        mo,
        d,
    )
}

/// A number with zeros in front, so that it has at least `width` digits.
pub open spec fn padded(n: nat, width: nat) -> Seq<char> {
    let shown = text::ascii_chars(text::digits(n));
    if shown.len() < width {
        Seq::new((width - shown.len()) as nat, |i: int| '0') + shown
    } else {
        shown
    }
}

/// A number with zeros in front.
fn padded_text(n: u64, width: usize) -> (out: String)
    ensures
        out@ == padded(n as nat, width as nat),
{
    let shown = number_text(n);
    let len = shown.as_str().unicode_len();
    let mut out = String::new();
    let mut i: usize = len;
    proof {
        reveal_strlit("0");
    }
    assert(out@ =~= Seq::new(0, |k: int| '0'));
    while i < width
        invariant
            len <= i,
            i <= width || i == len,
            out@ == Seq::new((i - len) as nat, |k: int| '0'),
            "0"@ == seq!['0'],
        decreases width - i,
    {
        out.append("0");
        i = i + 1;
        assert(out@ =~= Seq::new((i - len) as nat, |k: int| '0'));
    }
    out.append(shown.as_str());
    assert(out@ =~= padded(n as nat, width as nat));
    out
}

/// A date and a time of day as they are shown.
pub open spec fn stamp(y: int, m: int, d: int, seconds: int) -> Seq<char> {
    padded(y as nat, 4) + "-"@ + padded(m as nat, 2) + "-"@ + padded(d as nat, 2) + "T"@ + padded(
        (seconds / 3600) as nat,
        2,
    ) + ":"@ + padded((seconds % 3600 / 60) as nat, 2) + ":"@ + padded((seconds % 60) as nat, 2)
        + "Z"@
}

/// The moment so many seconds after the start of the year 1970, as it is shown.
pub fn utc_timestamp(secs: u64) -> (out: String)
    ensures
        exists|y: int, m: int, d: int|
            #[trigger] is_date(secs as int / 86400, y, m, d) && 1970 <= y && out@ == stamp(
                y,
                m,
                d,
                secs as int % 86400,
            ),
{
    let days = (secs / 86400) as i64;
    let rem = secs % 86400;
    let (y, mo, d) = civil_from_days(days);
    proof {
        lemma_month_table(y as int);
        lemma_year_grows(y as int, 1970);
        assert(y >= 1970);
        assert(is_date(secs as int / 86400, y as int, mo as int, d as int));
    }
    let mut out = padded_text(y as u64, 4);
    out.append("-");
    out.append(padded_text(mo, 2).as_str());
    out.append("-");
    out.append(padded_text(d, 2).as_str());
    out.append("T");
    out.append(padded_text(rem / 3600, 2).as_str());
    out.append(":");
    out.append(padded_text(rem % 3600 / 60, 2).as_str());
    out.append(":");
    out.append(padded_text(rem % 60, 2).as_str());
    out.append("Z");
    out
}

} // verus!
