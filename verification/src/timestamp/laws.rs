//! What holds of every date and of how moments are shown.
use vstd::prelude::*;

use crate::text;
use crate::timestamp;

verus! {

/// The calendar, day by day: it starts with the first of January 1970, each day is
/// followed by the next one of its month, the last of a month by the first of the
/// next month, and the last of December by the first of January.
pub proof fn law_next_day(z: int, y: int, m: int, d: int)
    requires
        timestamp::is_date(z, y, m, d),
    ensures
        timestamp::is_date(0, 1970, 1, 1),
        ({
            let leap = y % 4 == 0 && y % 100 != 0 || y % 400 == 0;
            let last = if m == 2 && leap {
                29int
            } else if m == 2 {
                28
            } else if m == 4 || m == 6 || m == 9 || m == 11 {
                30
            } else {
                31
            };
            &&& 1 <= d <= last
            &&& d < last ==> timestamp::is_date(z + 1, y, m, d + 1)
            &&& d == last && m < 12 ==> timestamp::is_date(z + 1, y, m + 1, 1)
            &&& d == last && m == 12 ==> timestamp::is_date(z + 1, y + 1, 1, 1)
        }),
{
    timestamp::lemma_month_table(y);
    timestamp::lemma_month_table(y + 1);
    timestamp::lemma_month_table(1970);
    let leap_day: int = if timestamp::is_leap(y) {
        1
    } else {
        0
    };
    assert(timestamp::days_before_year(y + 1) == timestamp::days_before_year(y) + 365 + leap_day);
}

/// A number below a hundred is shown by its two digits, the first of which may be
/// zero.
pub proof fn law_padded(n: nat)
    requires
        n < 100,
    ensures
        timestamp::padded(n, 2).len() == 2,
        timestamp::padded(n, 2)[0] as u32 == 48 + n / 10,
        timestamp::padded(n, 2)[1] as u32 == 48 + n % 10,
{
    reveal_with_fuel(text::digits, 3);
}

/// A year of four digits is shown by them.
pub proof fn law_padded_year(n: nat)
    requires
        1000 <= n < 10000,
    ensures
        timestamp::padded(n, 4).len() == 4,
        timestamp::padded(n, 4)[0] as u32 == 48 + n / 1000,
        timestamp::padded(n, 4)[1] as u32 == 48 + n / 100 % 10,
        timestamp::padded(n, 4)[2] as u32 == 48 + n / 10 % 10,
        timestamp::padded(n, 4)[3] as u32 == 48 + n % 10,
{
    reveal_with_fuel(text::digits, 5);
}

/// How a moment is shown, character by character: the year, the month and the day,
/// and the hours, minutes and seconds of the day, which make up its seconds.
pub proof fn law_stamp_layout(y: int, m: int, d: int, h: int, min: int, s: int)
    requires
        1000 <= y < 10000,
        1 <= m <= 12,
        1 <= d <= 31,
        0 <= h < 24,
        0 <= min < 60,
        0 <= s < 60,
    ensures
        ({
            let t = timestamp::stamp(y, m, d, 3600 * h + 60 * min + s);
            &&& t.len() == 20
            &&& t.subrange(0, 4) == timestamp::padded(y as nat, 4)
            &&& t[4] == '-'
            &&& t.subrange(5, 7) == timestamp::padded(m as nat, 2)
            &&& t[7] == '-'
            &&& t.subrange(8, 10) == timestamp::padded(d as nat, 2)
            &&& t[10] == 'T'
            &&& t.subrange(11, 13) == timestamp::padded(h as nat, 2)
            &&& t[13] == ':'
            &&& t.subrange(14, 16) == timestamp::padded(min as nat, 2)
            &&& t[16] == ':'
            &&& t.subrange(17, 19) == timestamp::padded(s as nat, 2)
            &&& t[19] == 'Z'
        }),
{
    let seconds = 3600 * h + 60 * min + s;
    assert(seconds / 3600 == h);
    assert(seconds % 3600 / 60 == min);
    assert(seconds % 60 == s);
    law_padded_year(y as nat);
    law_padded(m as nat);
    law_padded(d as nat);
    law_padded(h as nat);
    law_padded(min as nat);
    law_padded(s as nat);
    reveal_strlit("-");
    reveal_strlit("T");
    reveal_strlit(":");
    reveal_strlit("Z");
    let t = timestamp::stamp(y, m, d, seconds);
    assert(t.subrange(0, 4) =~= timestamp::padded(y as nat, 4));
    assert(t.subrange(5, 7) =~= timestamp::padded(m as nat, 2));
    assert(t.subrange(8, 10) =~= timestamp::padded(d as nat, 2));
    assert(t.subrange(11, 13) =~= timestamp::padded(h as nat, 2));
    assert(t.subrange(14, 16) =~= timestamp::padded(min as nat, 2));
    assert(t.subrange(17, 19) =~= timestamp::padded(s as nat, 2));
}

} // verus!
