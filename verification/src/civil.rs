//! Civil dates as days, and timestamps as seconds, since 1970-01-01 (UTC).

use vstd::prelude::*;
use vstd::string::*;
use crate::text;

verus! {

/// An `i64` holds `x`.
pub open spec fn fits(x: int) -> bool {
    i64::MIN <= x <= i64::MAX
}

/// The year of a calendar that begins in March.
pub open spec fn march_year(y: int, m: int) -> int {
    if m <= 2 {
        y - 1
    } else {
        y
    }
}

/// The month of a calendar that begins in March: 0 for March, 11 for February.
pub open spec fn march_month(m: int) -> int {
    if m > 2 {
        m - 3
    } else {
        m + 9
    }
}

/// `x` divided by 5, rounded towards zero.
pub open spec fn fifth(x: int) -> int {
    if x >= 0 {
        x / 5
    } else {
        -((-x) / 5)
    }
}

/// The days from March 1 to day `d` of the month: five months in a row last 153 days.
pub open spec fn day_of_march_year(m: int, d: int) -> int {
    fifth(153 * march_month(m) + 2) + d - 1
}

/// The days from 1970-01-01 to a date: 365 for each year since March of year 0, one more for
/// each leap year, and the days since March 1. A month outside 1 to 12, or a day outside the
/// month, counts on in the same way.
pub open spec fn civil_days(y: int, m: int, d: int) -> int {
    let my = march_year(y, m);
    365 * my + my / 4 - my / 100 + my / 400 + day_of_march_year(m, d) - 719468
}

/// The days of the years of a 400-year cycle before its year `yoe`.
pub open spec fn days_of_years(yoe: int) -> int {
    yoe * 365 + yoe / 4 - yoe / 100
}

/// Nothing that is computed on the way to `civil_days` is beyond an `i64`.
pub open spec fn days_fit(y: int, m: int, d: int) -> bool {
    let my = march_year(y, m);
    let era = my / 400;
    let day = day_of_march_year(m, d);
    let doe = days_of_years(my % 400) + day;
    &&& my - 399 >= i64::MIN
    &&& fits(153 * march_month(m))
    &&& fits(153 * march_month(m) + 2)
    &&& fits(day + 1)
    &&& fits(day)
    &&& fits(doe)
    &&& fits(era * 146097)
    &&& fits(era * 146097 + doe)
    &&& fits(civil_days(y, m, d))
}

/// The days from 1970-01-01 to a date.
pub fn days_from_civil(y: i64, m: i64, d: i64) -> (days: i64)
    requires
        days_fit(y as int, m as int, d as int),
    ensures
        days == civil_days(y as int, m as int, d as int),
{
    let my: i64 = if m <= 2 {
        y - 1
    } else {
        y
    };
    let era: i64 = (if my >= 0 {
        my
    } else {
        my - 399
    }) / 400;
    assert(era == my as int / 400);
    let yoe: i64 = my - era * 400;
    let doy: i64 = (153 * (if m > 2 {
        m - 3
    } else {
        m + 9
    }) + 2) / 5 + d - 1;
    let doe: i64 = yoe * 365 + yoe / 4 - yoe / 100 + doy;
    era * 146097 + doe - 719468
}

/// Each byte as the character with its number.
pub open spec fn as_chars(bytes: Seq<u8>) -> Seq<char> {
    Seq::new(bytes.len(), |i: int| bytes[i] as char)
}

/// The number that the characters `from..to` write.
pub open spec fn field(chars: Seq<char>, from: int, to: int) -> Option<int> {
    if to <= chars.len() {
        text::signed(chars.subrange(from, to))
    } else {
        None
    }
}

/// The seconds from 1970-01-01 to the time that is written `YYYY-MM-DDTHH:MM:SS`, whatever
/// stands between the numbers and after them.
pub open spec fn iso_epoch(bytes: Seq<u8>) -> Option<int> {
    let chars = as_chars(bytes);
    match (
        field(chars, 0, 4),
        field(chars, 5, 7),
        field(chars, 8, 10),
        field(chars, 11, 13),
        field(chars, 14, 16),
        field(chars, 17, 19),
    ) {
        (Some(y), Some(mo), Some(d), Some(h), Some(mi), Some(s)) => Some(
            civil_days(y, mo, d) * 86400 + h * 3600 + mi * 60 + s,
        ),
        _ => None,
    }
}

pub open spec fn power_of_ten(n: nat) -> int
    decreases n,
{
    if n == 0 {
        1
    } else {
        10 * power_of_ten((n - 1) as nat)
    }
}

/// A text of `n` digits is worth less than the power of ten that `n` gives.
proof fn lemma_decimal_bound(s: Seq<char>)
    requires
        forall|i: int| 0 <= i < s.len() ==> text::digit(#[trigger] s[i]),
    ensures
        0 <= text::decimal(s) < power_of_ten(s.len()),
    decreases s.len(),
{
    if s.len() > 0 {
        assert(text::digit(s.last()));
        lemma_decimal_bound(s.drop_last());
    }
}

/// A number of two characters is between -9 and 99, one of four between -999 and 9999.
proof fn lemma_field_bound(s: Seq<char>)
    requires
        s.len() == 2 || s.len() == 4,
        text::signed(s) is Some,
    ensures
        s.len() == 2 ==> -9 <= text::signed(s).unwrap() <= 99,
        s.len() == 4 ==> -999 <= text::signed(s).unwrap() <= 9999,
{
    let body = if s[0] == '-' || s[0] == '+' {
        s.drop_first()
    } else {
        s
    };
    reveal_with_fuel(power_of_ten, 5);
    assert(text::digits(body));
    lemma_decimal_bound(body);
}

/// The bytes as characters.
pub(crate) fn chars_of_bytes(bytes: &[u8]) -> (out: Vec<char>)
    ensures
        out@ == as_chars(bytes@),
{
    let mut out: Vec<char> = Vec::new();
    while out.len() < bytes.len()
        invariant
            out@.len() <= bytes@.len(),
            forall|i: int| 0 <= i < out@.len() ==> #[trigger] out@[i] == bytes@[i] as char,
        decreases bytes@.len() - out@.len(),
    {
        out.push(bytes[out.len()] as char);
    }
    assert(out@ =~= as_chars(bytes@));
    out
}

/// The number that the characters `from..to` write, if there are that many.
pub(crate) fn read_field(chars: &Vec<char>, from: usize, to: usize) -> (r: Option<i64>)
    requires
        from <= to,
        to - from == 2 || to - from == 4,
    ensures
        match r {
            Some(v) => field(chars@, from as int, to as int) == Some(v as int),
            None => field(chars@, from as int, to as int) is None,
        },
        r matches Some(v) ==> {
            &&& to - from == 2 ==> -9 <= v <= 99
            &&& to - from == 4 ==> -999 <= v <= 9999
        },
{
    if to > chars.len() {
        return None;
    }
    let r: Option<i64> = text::read_signed(chars, from, to);
    proof {
        if r is Some {
            lemma_field_bound(chars@.subrange(from as int, to as int));
        }
    }
    r
}

/// The seconds from 1970-01-01 to the time that `s` writes as `YYYY-MM-DDTHH:MM:SS…` (UTC).
pub fn iso_to_epoch(s: &str) -> (r: Option<i64>)
    ensures
        match r {
            Some(v) => iso_epoch(s.spec_bytes()) == Some(v as int),
            None => iso_epoch(s.spec_bytes()) is None,
        },
        r matches Some(v) ==> -100_000_000_000 < v < 300_000_000_000,
{
    let chars: Vec<char> = chars_of_bytes(s.as_bytes());
    let y: i64 = match read_field(&chars, 0, 4) {
        Some(v) => v,
        None => return None,
    };
    let mo: i64 = match read_field(&chars, 5, 7) {
        Some(v) => v,
        None => return None,
    };
    let d: i64 = match read_field(&chars, 8, 10) {
        Some(v) => v,
        None => return None,
    };
    let h: i64 = match read_field(&chars, 11, 13) {
        Some(v) => v,
        None => return None,
    };
    let mi: i64 = match read_field(&chars, 14, 16) {
        Some(v) => v,
        None => return None,
    };
    let se: i64 = match read_field(&chars, 17, 19) {
        Some(v) => v,
        None => return None,
    };
    Some(days_from_civil(y, mo, d) * 86400 + h * 3600 + mi * 60 + se)
}

/// The leap years of the Gregorian calendar.
pub open spec fn leap(y: int) -> bool {
    y % 4 == 0 && (y % 100 != 0 || y % 400 == 0)
}

/// The days of a month of the Gregorian calendar.
pub open spec fn month_days(y: int, m: int) -> int {
    if m == 2 {
        if leap(y) {
            29
        } else {
            28
        }
    } else if m == 4 || m == 6 || m == 9 || m == 11 {
        30
    } else {
        31
    }
}

/// A date of the Gregorian calendar.
pub open spec fn valid_date(y: int, m: int, d: int) -> bool {
    1 <= m <= 12 && 1 <= d <= month_days(y, m)
}

/// The day after a date.
pub open spec fn next_date(y: int, m: int, d: int) -> (int, int, int) {
    if d < month_days(y, m) {
        (y, m, d + 1)
    } else if m < 12 {
        (y, m + 1, 1)
    } else {
        (y + 1, 1, 1)
    }
}

/// The days are counted as the Gregorian calendar has them: 1970-01-01 is day 0, and the day
/// after a date has the next number. The two together fix the number of every date.
pub proof fn law_days_follow_the_calendar(y: int, m: int, d: int)
    requires
        valid_date(y, m, d),
    ensures
        civil_days(1970, 1, 1) == 0,
        ({
            let next = next_date(y, m, d);
            &&& valid_date(next.0, next.1, next.2)
            &&& civil_days(next.0, next.1, next.2) == civil_days(y, m, d) + 1
        }),
{
    if m == 2 {
        assert(y / 4 - (y - 1) / 4 == if y % 4 == 0 {
            1int
        } else {
            0int
        });
        assert(y / 100 - (y - 1) / 100 == if y % 100 == 0 {
            1int
        } else {
            0int
        });
        assert(y / 400 - (y - 1) / 400 == if y % 400 == 0 {
            1int
        } else {
            0int
        });
    }
}

/// One date is before another.
pub open spec fn earlier(y: int, m: int, d: int, y2: int, m2: int, d2: int) -> bool {
    y < y2 || (y == y2 && (m < m2 || (m == m2 && d < d2)))
}

/// The years that begin later have the later days.
proof fn lemma_years_in_order(y: int, y2: int)
    requires
        y <= y2,
    ensures
        civil_days(y, 1, 1) <= civil_days(y2, 1, 1),
    decreases y2 - y,
{
    if y < y2 {
        lemma_years_in_order(y, y2 - 1);
        assert(civil_days(y2 - 1, 1, 1) <= civil_days(y2, 1, 1));
    }
}

/// A later date has a greater number, so no two dates have the same.
pub proof fn law_days_are_in_order(y: int, m: int, d: int, y2: int, m2: int, d2: int)
    requires
        valid_date(y, m, d),
        valid_date(y2, m2, d2),
        earlier(y, m, d, y2, m2, d2),
    ensures
        civil_days(y, m, d) < civil_days(y2, m2, d2),
{
    law_days_follow_the_calendar(y, 2, 28);
    if y < y2 {
        lemma_years_in_order(y + 1, y2);
        assert(civil_days(y, m, d) < civil_days(y + 1, 1, 1));
        law_days_follow_the_calendar(y2, 2, 28);
        assert(civil_days(y2, 1, 1) <= civil_days(y2, m2, d2));
    }
}

/// The digits of a number below 100.
pub open spec fn two_digits(n: int) -> Seq<u8> {
    seq![(48 + n / 10) as u8, (48 + n % 10) as u8]
}

/// The digits of a number below 10000.
pub open spec fn four_digits(n: int) -> Seq<u8> {
    two_digits(n / 100) + two_digits(n % 100)
}

/// The time written as `YYYY-MM-DDTHH:MM:SS`.
#[verifier::opaque]
pub open spec fn stamp(y: int, mo: int, d: int, h: int, mi: int, s: int) -> Seq<u8> {
    four_digits(y) + seq![45u8] + two_digits(mo) + seq![45u8] + two_digits(d) + seq![84u8]
        + two_digits(h) + seq![58u8] + two_digits(mi) + seq![58u8] + two_digits(s)
}

/// Two digits in a row are read as the number that they write.
proof fn lemma_two_digits(bytes: Seq<u8>, from: int, n: int)
    requires
        0 <= n < 100,
        0 <= from,
        from + 2 <= bytes.len(),
        bytes.subrange(from, from + 2) == two_digits(n),
    ensures
        field(as_chars(bytes), from, from + 2) == Some(n),
{
    let t = as_chars(bytes).subrange(from, from + 2);
    assert(bytes.subrange(from, from + 2)[0] == bytes[from]);
    assert(bytes.subrange(from, from + 2)[1] == bytes[from + 1]);
    assert(t[0] == (48 + n / 10) as u8 as char);
    assert(t[1] == (48 + n % 10) as u8 as char);
    assert(text::digits(t));
    assert(t.drop_last().drop_last() =~= Seq::<char>::empty());
    reveal_with_fuel(text::decimal, 3);
    assert(text::decimal(t) == n);
}

/// Four digits in a row are read as the number that they write.
proof fn lemma_four_digits(bytes: Seq<u8>, from: int, n: int)
    requires
        0 <= n < 10000,
        0 <= from,
        from + 4 <= bytes.len(),
        bytes.subrange(from, from + 4) == four_digits(n),
    ensures
        field(as_chars(bytes), from, from + 4) == Some(n),
{
    let t = as_chars(bytes).subrange(from, from + 4);
    let b = bytes.subrange(from, from + 4);
    assert(b[0] == bytes[from] && b[1] == bytes[from + 1] && b[2] == bytes[from + 2] && b[3]
        == bytes[from + 3]);
    assert(t[0] == (48 + n / 100 / 10) as u8 as char);
    assert(t[1] == (48 + (n / 100) % 10) as u8 as char);
    assert(t[2] == (48 + (n % 100) / 10) as u8 as char);
    assert(t[3] == (48 + n % 100 % 10) as u8 as char);
    assert(text::digits(t));
    assert(t.drop_last().drop_last().drop_last().drop_last() =~= Seq::<char>::empty());
    reveal_with_fuel(text::decimal, 5);
    assert(text::decimal(t) == n);
}

/// The numbers of a time come back from the text that writes it.
pub proof fn lemma_stamp_fields(
    y: int,
    mo: int,
    d: int,
    h: int,
    mi: int,
    s: int,
    more: Seq<u8>,
)
    requires
        0 <= y < 10000,
        0 <= mo < 100,
        0 <= d < 100,
        0 <= h < 100,
        0 <= mi < 100,
        0 <= s < 100,
    ensures
        ({
            let chars = as_chars(stamp(y, mo, d, h, mi, s) + more);
            &&& field(chars, 0, 4) == Some(y)
            &&& field(chars, 5, 7) == Some(mo)
            &&& field(chars, 8, 10) == Some(d)
            &&& field(chars, 11, 13) == Some(h)
            &&& field(chars, 14, 16) == Some(mi)
            &&& field(chars, 17, 19) == Some(s)
        }),
{
    reveal(stamp);
    let bytes = stamp(y, mo, d, h, mi, s) + more;
    let chars = as_chars(bytes);
    assert(field(chars, 0, 4) == Some(y)) by {
        assert(bytes.subrange(0, 4) =~= four_digits(y));
        lemma_four_digits(bytes, 0, y);
    }
    assert(field(chars, 5, 7) == Some(mo)) by {
        assert(bytes.subrange(5, 7) =~= two_digits(mo));
        lemma_two_digits(bytes, 5, mo);
    }
    assert(field(chars, 8, 10) == Some(d)) by {
        assert(bytes.subrange(8, 10) =~= two_digits(d));
        lemma_two_digits(bytes, 8, d);
    }
    assert(field(chars, 11, 13) == Some(h)) by {
        assert(bytes.subrange(11, 13) =~= two_digits(h));
        lemma_two_digits(bytes, 11, h);
    }
    assert(field(chars, 14, 16) == Some(mi)) by {
        assert(bytes.subrange(14, 16) =~= two_digits(mi));
        lemma_two_digits(bytes, 14, mi);
    }
    assert(field(chars, 17, 19) == Some(s)) by {
        assert(bytes.subrange(17, 19) =~= two_digits(s));
        lemma_two_digits(bytes, 17, s);
    }
}

/// A time comes back, in seconds, from the text that writes it, whatever follows in the text.
pub proof fn law_time_comes_back(
    y: int,
    mo: int,
    d: int,
    h: int,
    mi: int,
    s: int,
    more: Seq<u8>,
)
    requires
        0 <= y < 10000,
        0 <= mo < 100,
        0 <= d < 100,
        0 <= h < 100,
        0 <= mi < 100,
        0 <= s < 100,
    ensures
        iso_epoch(stamp(y, mo, d, h, mi, s) + more) == Some(
            civil_days(y, mo, d) * 86400 + h * 3600 + mi * 60 + s,
        ),
{
    lemma_stamp_fields(y, mo, d, h, mi, s, more);
}

/// The days of a date are what `civil_days` says of it, and 1970-01-01 is day 0.
pub proof fn law_days_are_counted_from_1970(y: i64, m: i64, d: i64, days: i64)
    requires
        call_ensures(days_from_civil, (y, m, d), days),
    ensures
        days == civil_days(y as int, m as int, d as int),
        y == 1970 && m == 1 && d == 1 ==> days == 0,
{
}

/// A later day of the same month is as many days later, within the month and beyond it.
pub proof fn law_days_count_on(y: int, m: int, d: int, more: int)
    ensures
        civil_days(y, m, d + more) == civil_days(y, m, d) + more,
{
}

/// The months have the lengths of the Gregorian calendar: 31 or 30 days, and February 28, or 29
/// in a year that 4 divides, unless 100 divides it and 400 does not.
pub proof fn law_months_have_their_days(y: int, m: int)
    requires
        1 <= m <= 12,
    ensures
        ({
            let days = if m < 12 {
                civil_days(y, m + 1, 1) - civil_days(y, m, 1)
            } else {
                civil_days(y + 1, 1, 1) - civil_days(y, 12, 1)
            };
            &&& m == 1 || m == 3 || m == 5 || m == 7 || m == 8 || m == 10 || m == 12 ==> days == 31
            &&& m == 4 || m == 6 || m == 9 || m == 11 ==> days == 30
            &&& m == 2 && y % 4 != 0 ==> days == 28
            &&& m == 2 && y % 4 == 0 && y % 100 != 0 ==> days == 29
            &&& m == 2 && y % 100 == 0 && y % 400 != 0 ==> days == 28
            &&& m == 2 && y % 400 == 0 ==> days == 29
        }),
{
    law_days_follow_the_calendar(y, m, month_days(y, m));
    assert(civil_days(y, m, month_days(y, m)) == civil_days(y, m, 1) + month_days(y, m) - 1);
}

/// A number of a month beyond the year is counted on: down to -9 and up to 14 it is the month
/// of the year before or after. Further up, five months in a row last 153 days, and further down
/// too, the first five of them 30, 30, 31, 31 and 30.
pub proof fn law_months_run_on(y: int, m: int, d: int)
    ensures
        -9 <= m <= 0 ==> civil_days(y, m, d) == civil_days(y - 1, m + 12, d),
        13 <= m <= 14 ==> civil_days(y, m, d) == civil_days(y + 1, m - 12, d),
        m >= 3 ==> civil_days(y, m + 5, d) == civil_days(y, m, d) + 153,
        m <= -10 ==> civil_days(y, m - 5, d) == civil_days(y, m, d) - 153,
        civil_days(y, -10, d) == civil_days(y, -9, d) - 30,
        civil_days(y, -11, d) == civil_days(y, -10, d) - 30,
        civil_days(y, -12, d) == civil_days(y, -11, d) - 31,
        civil_days(y, -13, d) == civil_days(y, -12, d) - 31,
        civil_days(y, -14, d) == civil_days(y, -13, d) - 30,
{
}

/// A field of two characters is a number of two digits, or of one after a sign; anything else
/// is none.
pub proof fn law_field_of_two(chars: Seq<char>, from: int)
    requires
        0 <= from,
    ensures
        from + 2 > chars.len() ==> field(chars, from, from + 2) is None,
        from + 2 <= chars.len() ==> {
            let a = chars[from] as int;
            let b = chars[from + 1] as int;
            field(chars, from, from + 2) == (if !(48 <= b <= 57) {
                None
            } else if 48 <= a <= 57 {
                Some(10 * (a - 48) + (b - 48))
            } else if a == 43 {
                Some(b - 48)
            } else if a == 45 {
                Some(48 - b)
            } else {
                None
            })
        },
{
    if from + 2 <= chars.len() {
        let t = chars.subrange(from, from + 2);
        assert(t[0] == chars[from] && t[1] == chars[from + 1]);
        let one = t.drop_first();
        assert(one[0] == t[1]);
        assert(one.drop_last() =~= Seq::<char>::empty());
        assert(t.drop_last().drop_last() =~= Seq::<char>::empty());
        assert(t.drop_last()[0] == t[0]);
        reveal_with_fuel(text::decimal, 3);
        assert(text::digits(one) <==> text::digit(t[1]));
        assert(text::digits(t) <==> text::digit(t[0]) && text::digit(t[1])) by {
            if text::digits(t) {
                assert(text::digit(t[0]) && text::digit(t[1]));
            }
        }
    }
}

/// A field of four characters is a number of four digits, or of three after a sign; anything
/// else is none.
pub proof fn law_field_of_four(chars: Seq<char>, from: int)
    requires
        0 <= from,
    ensures
        from + 4 > chars.len() ==> field(chars, from, from + 4) is None,
        from + 4 <= chars.len() ==> {
            let a = chars[from] as int;
            let b = chars[from + 1] as int;
            let c = chars[from + 2] as int;
            let d = chars[from + 3] as int;
            let rest = 100 * (b - 48) + 10 * (c - 48) + (d - 48);
            field(chars, from, from + 4) == (if !(48 <= b <= 57 && 48 <= c <= 57 && 48 <= d <= 57) {
                None
            } else if 48 <= a <= 57 {
                Some(1000 * (a - 48) + rest)
            } else if a == 43 {
                Some(rest)
            } else if a == 45 {
                Some(-rest)
            } else {
                None
            })
        },
{
    if from + 4 <= chars.len() {
        let t = chars.subrange(from, from + 4);
        assert(t[0] == chars[from] && t[1] == chars[from + 1] && t[2] == chars[from + 2] && t[3]
            == chars[from + 3]);
        let three = t.drop_first();
        assert(three[0] == t[1] && three[1] == t[2] && three[2] == t[3]);
        assert(three.drop_last().drop_last().drop_last() =~= Seq::<char>::empty());
        assert(t.drop_last().drop_last().drop_last().drop_last() =~= Seq::<char>::empty());
        reveal_with_fuel(text::decimal, 5);
        assert(text::digits(three) <==> text::digit(t[1]) && text::digit(t[2]) && text::digit(
            t[3],
        )) by {
            if text::digits(three) {
                assert(text::digit(three[0]) && text::digit(three[1]) && text::digit(three[2]));
            }
        }
        assert(text::digits(t) <==> text::digit(t[0]) && text::digits(three)) by {
            if text::digits(t) {
                assert(text::digit(t[0]) && text::digit(t[1]) && text::digit(t[2])
                    && text::digit(t[3]));
            }
        }
    }
}

/// A time is read when each of its six numbers is, at its place in the bytes: the year in the
/// first four, then month, day, hour, minute and second in two bytes each, with one byte between
/// any two. It is the seconds of its days and of its time of day.
pub proof fn law_time_is_read_by_place(s: &str, r: Option<i64>)
    requires
        call_ensures(iso_to_epoch, (s,), r),
    ensures
        ({
            let b = as_chars(s.spec_bytes());
            let (y, mo, d) = (field(b, 0, 4), field(b, 5, 7), field(b, 8, 10));
            let (h, mi, se) = (field(b, 11, 13), field(b, 14, 16), field(b, 17, 19));
            &&& r is Some <==> y is Some && mo is Some && d is Some && h is Some && mi is Some
                && se is Some
            &&& r is Some ==> r.unwrap() == 86400 * civil_days(
                y.unwrap(),
                mo.unwrap(),
                d.unwrap(),
            ) + 3600 * h.unwrap() + 60 * mi.unwrap() + se.unwrap()
        }),
        s.spec_bytes().len() < 19 ==> r is None,
        match r {
            Some(v) => iso_epoch(s.spec_bytes()) == Some(v as int),
            None => iso_epoch(s.spec_bytes()) is None,
        },
{
}

/// A time in digits is read, whatever stands between the numbers and after them.
pub proof fn law_digits_of_a_time_are_read(s: &str, r: Option<i64>, d: Seq<int>)
    requires
        call_ensures(iso_to_epoch, (s,), r),
        s.spec_bytes().len() >= 19,
        d.len() == 19,
        forall|i: int|
            0 <= i < 19 && i != 4 && i != 7 && i != 10 && i != 13 && i != 16 ==> 0
                <= #[trigger] d[i] <= 9 && s.spec_bytes()[i] == 48 + d[i],
    ensures
        r is Some,
        r.unwrap() == 86400 * civil_days(
            1000 * d[0] + 100 * d[1] + 10 * d[2] + d[3],
            10 * d[5] + d[6],
            10 * d[8] + d[9],
        ) + 3600 * (10 * d[11] + d[12]) + 60 * (10 * d[14] + d[15]) + (10 * d[17] + d[18]),
{
    let chars = as_chars(s.spec_bytes());
    assert forall|i: int|
        0 <= i < 19 && i != 4 && i != 7 && i != 10 && i != 13 && i != 16 implies chars[i] as int
        == 48 + #[trigger] d[i] by {}
    law_field_of_four(chars, 0);
    law_field_of_two(chars, 5);
    law_field_of_two(chars, 8);
    law_field_of_two(chars, 11);
    law_field_of_two(chars, 14);
    law_field_of_two(chars, 17);
    assert(0 <= d[0] <= 9 && 0 <= d[1] <= 9 && 0 <= d[2] <= 9 && 0 <= d[3] <= 9);
    assert(0 <= d[5] <= 9 && 0 <= d[6] <= 9 && 0 <= d[8] <= 9 && 0 <= d[9] <= 9);
    assert(0 <= d[11] <= 9 && 0 <= d[12] <= 9 && 0 <= d[14] <= 9 && 0 <= d[15] <= 9);
    assert(0 <= d[17] <= 9 && 0 <= d[18] <= 9);
}

/// The days of a date with a year of four characters and a month and a day of two.
proof fn lemma_days_bound(y: int, m: int, d: int)
    requires
        -999 <= y <= 9999,
        -9 <= m <= 99,
        -9 <= d <= 99,
    ensures
        -1_100_000 < civil_days(y, m, d) < 3_400_000,
{
}

/// The bounds of a number of two characters.
proof fn lemma_two_bound(chars: Seq<char>, from: int)
    requires
        0 <= from,
    ensures
        field(chars, from, from + 2) matches Some(n) ==> -9 <= n <= 99,
{
    law_field_of_two(chars, from);
}

/// The bounds of a number of four characters.
proof fn lemma_four_bound(chars: Seq<char>, from: int)
    requires
        0 <= from,
    ensures
        field(chars, from, from + 4) matches Some(n) ==> -999 <= n <= 9999,
{
    law_field_of_four(chars, from);
}

/// The times that can be written are within some thousands of years of 1970, and the numbers in
/// them have two or four characters.
pub proof fn lemma_time_bound(bytes: Seq<u8>)
    ensures
        iso_epoch(bytes) matches Some(v) ==> -100_000_000_000 < v < 300_000_000_000,
        field(as_chars(bytes), 11, 13) matches Some(h) ==> -9 <= h <= 99,
        field(as_chars(bytes), 14, 16) matches Some(m) ==> -9 <= m <= 99,
{
    let chars = as_chars(bytes);
    lemma_four_bound(chars, 0);
    lemma_two_bound(chars, 5);
    lemma_two_bound(chars, 8);
    lemma_two_bound(chars, 11);
    lemma_two_bound(chars, 14);
    lemma_two_bound(chars, 17);
    if iso_epoch(bytes) is Some {
        lemma_days_bound(
            field(chars, 0, 4).unwrap(),
            field(chars, 5, 7).unwrap(),
            field(chars, 8, 10).unwrap(),
        );
    }
}

} // verus!
