//! The proleptic Gregorian calendar in UTC, and the fixed-width timestamp
//! text `YYYYMMDDTHHMMSS.mmmZ` that backup names carry. Text of later
//! instants sorts later, as long as the year has four digits.
use vstd::prelude::*;

use crate::text::text_lt;

verus! {

/// Milliseconds in one calendar day.
pub open spec fn day_ms() -> int {
    86_400_000
}

/// A leap year of the Gregorian calendar.
pub open spec fn is_leap_year(y: int) -> bool {
    y % 4 == 0 && (y % 100 != 0 || y % 400 == 0)
}

/// Days in year `y`.
pub open spec fn year_length(y: int) -> int {
    if is_leap_year(y) { 366 } else { 365 }
}

/// Days in month `m` (1-12) of year `y`.
pub open spec fn month_length(y: int, m: int) -> int {
    if m == 2 {
        if is_leap_year(y) { 29 } else { 28 }
    } else if m == 4 || m == 6 || m == 9 || m == 11 {
        30
    } else {
        31
    }
}

/// Days in months `m` to 12 of year `y`.
pub open spec fn days_from_month(y: int, m: int) -> int
    decreases 13 - m,
{
    if m > 12 || m < 1 {
        0
    } else {
        month_length(y, m) + days_from_month(y, m + 1)
    }
}

/// The year and the day within it (from 0) of the day `z` days after the
/// first of January of year `y`.
pub open spec fn year_and_day(z: int, y: int) -> (int, int)
    decreases z,
{
    if z < year_length(y) {
        (y, z)
    } else {
        year_and_day(z - year_length(y), y + 1)
    }
}

/// The month (1-12) and the day within it (from 0) of day `d` (from 0) of
/// year `y`, counting months from `m`.
pub open spec fn month_and_day(d: int, y: int, m: int) -> (int, int)
    decreases 12 - m,
{
    if m >= 12 || d < month_length(y, m) {
        (m, d)
    } else {
        month_and_day(d - month_length(y, m), y, m + 1)
    }
}

/// The UTC year of instant `ms` (milliseconds since the Unix epoch).
pub open spec fn utc_year(ms: int) -> int {
    year_and_day(ms / day_ms(), 1970).0
}

/// The UTC calendar date (year, month 1-12, day 1-31) of instant `ms`.
pub open spec fn utc_date(ms: int) -> (int, int, int) {
    let yd = year_and_day(ms / day_ms(), 1970);
    let md = month_and_day(yd.1, yd.0, 1);
    (yd.0, md.0, md.1 + 1)
}

/// The decimal digit character for `v` (0-9).
pub open spec fn digit_char(v: int) -> char {
    (48 + v) as char
}

/// The last `n` decimal digits of `v`, zero-padded.
pub open spec fn digits(v: int, n: nat) -> Seq<char>
    decreases n,
{
    if n == 0 {
        Seq::empty()
    } else {
        digits(v / 10, (n - 1) as nat).push(digit_char(v % 10))
    }
}

/// The time of day of instant `ms` as `HHMMSS.mmmZ`.
pub open spec fn time_text(ms: int) -> Seq<char> {
    let r0 = ms % day_ms();
    let r1 = r0 % 3_600_000;
    let r2 = r1 % 60_000;
    digits(r0 / 3_600_000, 2) + (digits(r1 / 60_000, 2) + (digits(r2 / 1_000, 2) + ("."@ + (
    digits(r2 % 1_000, 3) + "Z"@))))
}

/// Instant `ms` in UTC as `YYYYMMDDTHHMMSS.mmmZ`.
pub open spec fn stamp_text(ms: int) -> Seq<char> {
    let date = utc_date(ms);
    digits(date.0, 4) + (digits(date.1, 2) + (digits(date.2, 2) + ("T"@ + time_text(ms))))
}

/// `10` to the power `n`.
pub open spec fn pow10(n: nat) -> int
    decreases n,
{
    if n == 0 { 1 } else { 10 * pow10((n - 1) as nat) }
}

proof fn lemma_digits_len(v: int, n: nat)
    ensures
        digits(v, n).len() == n,
    decreases n,
{
    if n > 0 {
        lemma_digits_len(v / 10, (n - 1) as nat);
    }
}

/// Appending after text that already comes first keeps it first.
pub(crate) proof fn lemma_lt_then_append(a1: Seq<char>, a2: Seq<char>, b1: Seq<char>, b2: Seq<char>)
    requires
        a1.len() == a2.len(),
        text_lt(a1, a2),
    ensures
        text_lt(a1 + b1, a2 + b2),
    decreases a1.len(),
{
    if a1.len() > 0 {
        assert((a1 + b1)[0] == a1[0]);
        assert((a2 + b2)[0] == a2[0]);
        if a1[0] == a2[0] {
            assert((a1 + b1).drop_first() =~= a1.drop_first() + b1);
            assert((a2 + b2).drop_first() =~= a2.drop_first() + b2);
            lemma_lt_then_append(a1.drop_first(), a2.drop_first(), b1, b2);
        }
    }
}

/// A common prefix does not change which text comes first.
pub(crate) proof fn lemma_common_prefix(a: Seq<char>, b1: Seq<char>, b2: Seq<char>)
    requires
        text_lt(b1, b2),
    ensures
        text_lt(a + b1, a + b2),
    decreases a.len(),
{
    if a.len() > 0 {
        assert((a + b1)[0] == a[0]);
        assert((a + b2)[0] == a[0]);
        assert((a + b1).drop_first() =~= a.drop_first() + b1);
        assert((a + b2).drop_first() =~= a.drop_first() + b2);
        lemma_common_prefix(a.drop_first(), b1, b2);
    } else {
        assert(a + b1 =~= b1);
        assert(a + b2 =~= b2);
    }
}

/// Fixed-width digits of smaller numbers come first.
proof fn lemma_digits_ordered(v1: int, v2: int, n: nat)
    requires
        0 <= v1 < v2 < pow10(n),
    ensures
        text_lt(digits(v1, n), digits(v2, n)),
    decreases n,
{
    let m = (n - 1) as nat;
    let q1 = v1 / 10;
    let q2 = v2 / 10;
    assert(0 <= q1 <= q2 < pow10(m)) by (nonlinear_arith)
        requires
            0 <= v1 < v2 < pow10(n),
            pow10(n) == 10 * pow10(m),
            q1 == v1 / 10,
            q2 == v2 / 10,
    ;
    lemma_digits_len(q1, m);
    lemma_digits_len(q2, m);
    let c1 = seq![digit_char(v1 % 10)];
    let c2 = seq![digit_char(v2 % 10)];
    assert(digits(v1, n) =~= digits(q1, m) + c1);
    assert(digits(v2, n) =~= digits(q2, m) + c2);
    if q1 < q2 {
        lemma_digits_ordered(q1, q2, m);
        lemma_lt_then_append(digits(q1, m), digits(q2, m), c1, c2);
    } else {
        assert(v1 % 10 < v2 % 10);
        assert(text_lt(c1, c2)) by {
            assert(c1[0] != c2[0]);
            assert(c1.drop_first().len() == 0);
        }
        lemma_common_prefix(digits(q1, m), c1, c2);
    }
}

/// Later days fall in a later year, or later in the same year; the day
/// within the year lies within it.
proof fn lemma_year_and_day(z1: int, z2: int, y: int)
    requires
        0 <= z1 <= z2,
    ensures
        year_and_day(z1, y).0 >= y,
        0 <= year_and_day(z1, y).1 < year_length(year_and_day(z1, y).0),
        year_and_day(z1, y).0 <= year_and_day(z2, y).0,
        z1 < z2 ==> year_and_day(z1, y).0 < year_and_day(z2, y).0 || (year_and_day(z1, y).0
            == year_and_day(z2, y).0 && year_and_day(z1, y).1 < year_and_day(z2, y).1),
    decreases z2,
{
    let len = year_length(y);
    if z2 < len {
    } else if z1 < len {
        lemma_year_and_day(z2 - len, z2 - len, y + 1);
    } else {
        lemma_year_and_day(z1 - len, z2 - len, y + 1);
    }
}

/// Later days of a year fall in a later month, or later in the same month;
/// the day within the month lies within it.
proof fn lemma_month_and_day(d1: int, d2: int, y: int, m: int)
    requires
        1 <= m <= 12,
        0 <= d1 <= d2 < days_from_month(y, m),
    ensures
        m <= month_and_day(d1, y, m).0 <= 12,
        0 <= month_and_day(d1, y, m).1 < month_length(y, month_and_day(d1, y, m).0),
        month_and_day(d1, y, m).0 <= month_and_day(d2, y, m).0,
        d1 < d2 ==> month_and_day(d1, y, m).0 < month_and_day(d2, y, m).0 || (month_and_day(
            d1,
            y,
            m,
        ).0 == month_and_day(d2, y, m).0 && month_and_day(d1, y, m).1 < month_and_day(
            d2,
            y,
            m,
        ).1),
    decreases 12 - m,
{
    let len = month_length(y, m);
    if m >= 12 {
        assert(days_from_month(y, 13) == 0);
    } else if d2 < len {
    } else if d1 < len {
        lemma_month_and_day(d2 - len, d2 - len, y, m + 1);
    } else {
        lemma_month_and_day(d1 - len, d2 - len, y, m + 1);
    }
}

proof fn lemma_year_length_by_months(y: int)
    ensures
        days_from_month(y, 1) == year_length(y),
{
    reveal_with_fuel(days_from_month, 13);
}

/// Dividing a larger number: a larger quotient, or the same quotient and a
/// larger remainder.
proof fn lemma_div_mod_ordered(x1: int, x2: int, c: int)
    requires
        0 <= x1 < x2,
        c > 0,
    ensures
        x1 / c < x2 / c || (x1 / c == x2 / c && x1 % c < x2 % c),
        0 <= x1 / c <= x2 / c,
        0 <= x1 % c < c,
        0 <= x2 % c < c,
{
    assert(x1 / c <= x2 / c) by (nonlinear_arith)
        requires
            0 <= x1 < x2,
            c > 0,
    ;
    assert(x1 / c == x2 / c ==> x1 % c < x2 % c) by (nonlinear_arith)
        requires
            0 <= x1 < x2,
            c > 0,
    ;
    assert(0 <= x1 / c) by (nonlinear_arith)
        requires
            0 <= x1,
            c > 0,
    ;
}

proof fn lemma_pow10_small()
    ensures
        pow10(2) == 100,
        pow10(3) == 1000,
        pow10(4) == 10000,
{
    reveal_with_fuel(pow10, 5);
}

/// The time-of-day text of a later time of day comes later.
proof fn lemma_time_text_ordered(a: int, b: int)
    requires
        0 <= a % day_ms() < b % day_ms(),
    ensures
        text_lt(time_text(a), time_text(b)),
{
    lemma_pow10_small();
    let ra = a % day_ms();
    let rb = b % day_ms();
    lemma_div_mod_ordered(ra, rb, 3_600_000);
    let (ha, hb) = (ra / 3_600_000, rb / 3_600_000);
    let (r1a, r1b) = (ra % 3_600_000, rb % 3_600_000);
    assert(hb < 24) by (nonlinear_arith)
        requires
            0 <= rb < 86_400_000,
            hb == rb / 3_600_000,
    ;
    let ma_text = digits(r1a / 60_000, 2) + (digits((r1a % 60_000) / 1_000, 2) + ("."@ + (digits(
        (r1a % 60_000) % 1_000,
        3,
    ) + "Z"@)));
    let mb_text = digits(r1b / 60_000, 2) + (digits((r1b % 60_000) / 1_000, 2) + ("."@ + (digits(
        (r1b % 60_000) % 1_000,
        3,
    ) + "Z"@)));
    assert(time_text(a) == digits(ha, 2) + ma_text);
    assert(time_text(b) == digits(hb, 2) + mb_text);
    lemma_digits_len(ha, 2);
    lemma_digits_len(hb, 2);
    if ha < hb {
        lemma_digits_ordered(ha, hb, 2);
        lemma_lt_then_append(digits(ha, 2), digits(hb, 2), ma_text, mb_text);
    } else {
        assert(ha == hb);
        lemma_div_mod_ordered(r1a, r1b, 60_000);
        let (na, nb) = (r1a / 60_000, r1b / 60_000);
        let (r2a, r2b) = (r1a % 60_000, r1b % 60_000);
        assert(nb < 60) by (nonlinear_arith)
            requires
                0 <= r1b < 3_600_000,
                nb == r1b / 60_000,
        ;
        let sa_text = digits(r2a / 1_000, 2) + ("."@ + (digits(r2a % 1_000, 3) + "Z"@));
        let sb_text = digits(r2b / 1_000, 2) + ("."@ + (digits(r2b % 1_000, 3) + "Z"@));
        lemma_digits_len(na, 2);
        lemma_digits_len(nb, 2);
        if na < nb {
            lemma_digits_ordered(na, nb, 2);
            lemma_lt_then_append(digits(na, 2), digits(nb, 2), sa_text, sb_text);
        } else {
            assert(na == nb);
            lemma_div_mod_ordered(r2a, r2b, 1_000);
            let (sa, sb) = (r2a / 1_000, r2b / 1_000);
            assert(sb < 60) by (nonlinear_arith)
                requires
                    0 <= r2b < 60_000,
                    sb == r2b / 1_000,
            ;
            let ta = "."@ + (digits(r2a % 1_000, 3) + "Z"@);
            let tb = "."@ + (digits(r2b % 1_000, 3) + "Z"@);
            lemma_digits_len(sa, 2);
            lemma_digits_len(sb, 2);
            if sa < sb {
                lemma_digits_ordered(sa, sb, 2);
                lemma_lt_then_append(digits(sa, 2), digits(sb, 2), ta, tb);
            } else {
                assert(sa == sb);
                let (xa, xb) = (r2a % 1_000, r2b % 1_000);
                lemma_digits_ordered(xa, xb, 3);
                lemma_digits_len(xa, 3);
                lemma_digits_len(xb, 3);
                lemma_lt_then_append(digits(xa, 3), digits(xb, 3), "Z"@, "Z"@);
                lemma_common_prefix("."@, digits(xa, 3) + "Z"@, digits(xb, 3) + "Z"@);
                lemma_common_prefix(digits(sa, 2), ta, tb);
            }
            lemma_common_prefix(digits(na, 2), sa_text, sb_text);
        }
        lemma_common_prefix(digits(ha, 2), ma_text, mb_text);
    }
}

/// Law: the timestamp text of a later instant comes later in text order, for
/// instants from the Unix epoch on, up to the end of the year 9999 (the last
/// year written with four digits).
pub proof fn lemma_stamp_text_ordered(a: int, b: int)
    requires
        0 <= a < b,
        utc_year(b) <= 9999,
    ensures
        text_lt(stamp_text(a), stamp_text(b)),
{
    lemma_pow10_small();
    let d = day_ms();
    lemma_div_mod_ordered(a, b, d);
    let za = a / d;
    let zb = b / d;
    lemma_year_and_day(za, zb, 1970);
    lemma_year_and_day(zb, zb, 1970);
    let ya = year_and_day(za, 1970).0;
    let yb = year_and_day(zb, 1970).0;
    let da = year_and_day(za, 1970).1;
    let db = year_and_day(zb, 1970).1;
    lemma_year_length_by_months(ya);
    lemma_year_length_by_months(yb);
    lemma_month_and_day(da, da, ya, 1);
    lemma_month_and_day(db, db, yb, 1);
    let ma = month_and_day(da, ya, 1).0;
    let mb = month_and_day(db, yb, 1).0;
    let dda = month_and_day(da, ya, 1).1 + 1;
    let ddb = month_and_day(db, yb, 1).1 + 1;
    assert(utc_date(a) == (ya, ma, dda));
    assert(utc_date(b) == (yb, mb, ddb));
    let ta = "T"@ + time_text(a);
    let tb = "T"@ + time_text(b);
    let da_text = digits(dda, 2) + ta;
    let db_text = digits(ddb, 2) + tb;
    let ma_text = digits(ma, 2) + da_text;
    let mb_text = digits(mb, 2) + db_text;
    assert(stamp_text(a) == digits(ya, 4) + ma_text);
    assert(stamp_text(b) == digits(yb, 4) + mb_text);
    lemma_digits_len(ya, 4);
    lemma_digits_len(yb, 4);
    lemma_digits_len(ma, 2);
    lemma_digits_len(mb, 2);
    lemma_digits_len(dda, 2);
    lemma_digits_len(ddb, 2);
    if za < zb {
        if ya < yb {
            lemma_digits_ordered(ya, yb, 4);
            lemma_lt_then_append(digits(ya, 4), digits(yb, 4), ma_text, mb_text);
        } else {
            assert(ya == yb && da < db);
            lemma_month_and_day(da, db, ya, 1);
            if ma < mb {
                lemma_digits_ordered(ma, mb, 2);
                lemma_lt_then_append(digits(ma, 2), digits(mb, 2), da_text, db_text);
            } else {
                assert(ma == mb && dda < ddb);
                lemma_digits_ordered(dda, ddb, 2);
                lemma_lt_then_append(digits(dda, 2), digits(ddb, 2), ta, tb);
                lemma_common_prefix(digits(ma, 2), da_text, db_text);
            }
            lemma_common_prefix(digits(ya, 4), ma_text, mb_text);
        }
    } else {
        assert(za == zb);
        assert(a % d < b % d);
        lemma_time_text_ordered(a, b);
        lemma_common_prefix("T"@, time_text(a), time_text(b));
        lemma_common_prefix(digits(dda, 2), ta, tb);
        lemma_common_prefix(digits(ma, 2), da_text, db_text);
        lemma_common_prefix(digits(ya, 4), ma_text, mb_text);
    }
}

/// The timestamp text always has 20 characters.
pub proof fn lemma_stamp_text_len(ms: int)
    ensures
        stamp_text(ms).len() == 20,
{
    let date = utc_date(ms);
    let r0 = ms % day_ms();
    let r1 = r0 % 3_600_000;
    let r2 = r1 % 60_000;
    lemma_digits_len(date.0, 4);
    lemma_digits_len(date.1, 2);
    lemma_digits_len(date.2, 2);
    lemma_digits_len(r0 / 3_600_000, 2);
    lemma_digits_len(r1 / 60_000, 2);
    lemma_digits_len(r2 / 1_000, 2);
    lemma_digits_len(r2 % 1_000, 3);
    reveal_strlit("T");
    reveal_strlit(".");
    reveal_strlit("Z");
}

} // verus!
