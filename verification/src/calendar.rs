//! Calendar facets of instants: civil date, weekday, business hours, fiscal year and the distance in
//! days to a question's instant. Instants are seconds since 1970-01-01 00:00 UTC.
pub mod laws;

use crate::text::{decimal, push_i64, push_str, push_u64, signed_decimal, to_chars};
use vstd::arithmetic::div_mod::{
    lemma_fundamental_div_mod, lemma_fundamental_div_mod_converse, lemma_mod_bound,
};
use vstd::prelude::*;

verus! {

/// A rendering frame: a fixed offset from UTC, the business day, and the start of the fiscal year.
#[derive(Clone, Copy, Debug)]
pub struct Calendar {
    /// Minutes ahead of UTC.
    pub utc_offset_min: i32,
    /// The start of the business day, in minutes from local midnight.
    pub business_start_min: u32,
    /// The end of the business day, in minutes from local midnight.
    pub business_end_min: u32,
    /// The month in which the fiscal year starts, from 1 to 12.
    pub fiscal_year_start_month: u32,
}

impl Default for Calendar {
    /// UTC, 09:00 to 18:00, fiscal years as calendar years.
    fn default() -> (r: Self)
        ensures
            r == (Calendar {
                utc_offset_min: 0,
                business_start_min: 540,
                business_end_min: 1080,
                fiscal_year_start_month: 1,
            }),
    {
        Calendar {
            utc_offset_min: 0,
            business_start_min: 540,
            business_end_min: 1080,
            fiscal_year_start_month: 1,
        }
    }
}

/// Whether a year is a leap year.
pub open spec fn leap(y: int) -> bool {
    y % 4 == 0 && (y % 100 != 0 || y % 400 == 0)
}

/// The number of days in a month.
pub open spec fn month_days(y: int, m: int) -> int {
    if m == 2 {
        if leap(y) {
            29
        } else {
            28
        }
    } else if m == 4 || m == 6 || m == 9 || m == 11 {
        30
    } else {
        31
    }
}

/// The days from March 1st to the first of a month, months being counted from March as 0.
pub open spec fn days_from_march(mp: int) -> int {
    (153 * mp + 2) / 5
}

/// The days from March 1st of year 0 to March 1st of year `y`: 365 for each year, and one for each
/// leap day between.
pub open spec fn march_days(y: int) -> int {
    365 * y + y / 4 - y / 100 + y / 400
}

/// The number of a day: days since 1970-01-01 in the Gregorian calendar. A day beyond the end of its
/// month runs on into the next.
pub open spec fn day_number(y: int, m: int, d: int) -> int {
    let yy = if m <= 2 {
        y - 1
    } else {
        y
    };
    let mp = if m <= 2 {
        m + 9
    } else {
        m - 3
    };
    march_days(yy) + days_from_march(mp) + d - 1 - 719468
}

/// The numbering is the calendar's: day 0 is 1970-01-01, every day in a month is followed by the
/// next, every month by the first of the next, and every year by the first of the next.
pub proof fn law_day_numbers(y: int, m: int, d: int)
    requires
        1 <= m <= 12,
        1 <= d <= month_days(y, m),
    ensures
        day_number(1970, 1, 1) == 0,
        d < month_days(y, m) ==> day_number(y, m, d + 1) == day_number(y, m, d) + 1,
        d == month_days(y, m) && m < 12 ==> day_number(y, m + 1, 1) == day_number(y, m, d) + 1,
        d == month_days(y, m) && m == 12 ==> day_number(y + 1, 1, 1) == day_number(y, m, d) + 1,
{
    lemma_month_starts(y, m);
    if m < 12 {
        lemma_month_starts(y, m + 1);
    }
    lemma_year_len(y);
    lemma_months(10);
}

/// The civil date of a day number.
pub open spec fn is_civil(z: int, y: int, m: int, d: int) -> bool {
    1 <= m <= 12 && 1 <= d <= month_days(y, m) && day_number(y, m, d) == z
}

/// The days before March 1st of the `yoe`-th year of a 400-year era.
spec fn era_days(yoe: int) -> int {
    365 * yoe + yoe / 4 - yoe / 100
}

proof fn lemma_year_of_era(doe: int)
    requires
        0 <= doe <= 146096,
    ensures
        ({
            let yoe = (doe - doe / 1460 + doe / 36524 - doe / 146096) / 365;
            0 <= yoe <= 399 && era_days(yoe) <= doe && (doe < era_days(yoe + 1) || (yoe == 399
                && doe <= 146096))
        }),
{
    let n = doe - doe / 1460 + doe / 36524 - doe / 146096;
    let yoe = n / 365;
    assert(0 <= yoe <= 399);
}

/// The days to the first of each month, counted from March 1st.
proof fn lemma_months(mp: int)
    requires
        0 <= mp <= 11,
    ensures
        days_from_march(mp) == seq![
            0int, 31, 61, 92, 122, 153, 184, 214, 245, 275, 306, 337,
        ][mp],
{
}

/// The month and day of a day counted from March 1st.
proof fn lemma_month_of_day(doy: int)
    requires
        0 <= doy <= 365,
    ensures
        ({
            let mp = (5 * doy + 2) / 153;
            let d = doy - days_from_march(mp) + 1;
            &&& 0 <= mp <= 11
            &&& 1 <= d
            &&& d <= if mp == 11 {
                29int
            } else if mp == 1 || mp == 3 || mp == 6 || mp == 8 {
                30int
            } else {
                31int
            }
            &&& mp == 11 && d == 29 ==> doy == 365
        }),
{
    let mp = (5 * doy + 2) / 153;
    assert(0 <= mp <= 11);
    lemma_months(mp);
    if mp < 11 {
        lemma_months(mp + 1);
    }
}

/// The quotients of a year by 4, 100 and 400, from those of its place in the era.
proof fn lemma_era_quotients(e: int, yoe: int)
    requires
        0 <= yoe <= 399,
    ensures
        (yoe + e * 400) / 4 == e * 100 + yoe / 4,
        (yoe + e * 400) / 100 == e * 4 + yoe / 100,
        (yoe + e * 400) / 400 == e,
        march_days(yoe + e * 400) == e * 146097 + era_days(yoe),
{
}

/// The 366th day of a March-based year is there only where February has a 29th.
proof fn lemma_last_day(e: int, yoe: int, doe: int)
    requires
        0 <= yoe <= 399,
        era_days(yoe) <= doe <= 146096,
        doe < era_days(yoe + 1) || yoe == 399,
    ensures
        0 <= doe - era_days(yoe) <= 365,
        doe - era_days(yoe) == 365 ==> leap(yoe + e * 400 + 1),
{
    let k = yoe + 1;
    assert(era_days(k) - era_days(yoe) <= 366);
    if doe - era_days(yoe) == 365 {
        assert((k + e * 400) % 4 == k % 4);
        assert((k + e * 400) % 100 == k % 100);
        assert((k + e * 400) % 400 == k % 400);
        if yoe < 399 {
            assert(k % 4 == 0);
            assert(k % 100 != 0);
        } else {
            assert(k % 400 == 0);
        }
    }
}

/// The civil date of a day, from its place in its 400-year era.
proof fn lemma_civil(z: int)
    ensures
        ({
            let e = (z + 719468) / 146097;
            let doe = (z + 719468) - e * 146097;
            let yoe = (doe - doe / 1460 + doe / 36524 - doe / 146096) / 365;
            let doy = doe - (365 * yoe + yoe / 4 - yoe / 100);
            let mp = (5 * doy + 2) / 153;
            let d = doy - (153 * mp + 2) / 5 + 1;
            let m = if mp < 10 {
                mp + 3
            } else {
                mp - 9
            };
            let y = yoe + e * 400;
            &&& 0 <= doe <= 146096
            &&& 0 <= yoe <= 399
            &&& 0 <= doy <= 365
            &&& 0 <= mp <= 11
            &&& is_civil(
                z,
                if m <= 2 {
                    y + 1
                } else {
                    y
                },
                m,
                d,
            )
        }),
{
    let e = (z + 719468) / 146097;
    let doe = (z + 719468) - e * 146097;
    assert(0 <= doe <= 146096);
    lemma_year_of_era(doe);
    let yoe = (doe - doe / 1460 + doe / 36524 - doe / 146096) / 365;
    lemma_last_day(e, yoe, doe);
    lemma_era_quotients(e, yoe);
    let doy = doe - era_days(yoe);
    lemma_month_of_day(doy);
}

/// Two civil dates of one day are the same.
pub proof fn law_civil_date_unique(z: int, y1: int, m1: int, d1: int, y2: int, m2: int, d2: int)
    requires
        is_civil(z, y1, m1, d1),
        is_civil(z, y2, m2, d2),
    ensures
        y1 == y2,
        m1 == m2,
        d1 == d2,
{
    if y1 < y2 || (y1 == y2 && (m1 < m2 || (m1 == m2 && d1 < d2))) {
        lemma_date_order(y1, m1, d1, y2, m2, d2);
    } else if y2 < y1 || (y1 == y2 && (m2 < m1 || (m1 == m2 && d2 < d1))) {
        lemma_date_order(y2, m2, d2, y1, m1, d1);
    }
}

/// A later date has a greater number.
proof fn lemma_date_order(y1: int, m1: int, d1: int, y2: int, m2: int, d2: int)
    requires
        1 <= m1 <= 12,
        1 <= m2 <= 12,
        1 <= d1 <= month_days(y1, m1),
        1 <= d2 <= month_days(y2, m2),
        y1 < y2 || (y1 == y2 && (m1 < m2 || (m1 == m2 && d1 < d2))),
    ensures
        day_number(y1, m1, d1) < day_number(y2, m2, d2),
{
    if y1 < y2 {
        lemma_year_start(y1, m1, d1);
        lemma_year_start(y2, m2, d2);
        lemma_years_grow(y1 + 1, y2);
    } else {
        lemma_month_starts(y1, m1);
        lemma_month_starts(y1, m2);
        lemma_year_len(y1);
    }
}

/// The days from January 1st to the first of a month.
spec fn year_day(y: int, m: int) -> int {
    let l: int = if leap(y) {
        1
    } else {
        0
    };
    seq![0int, 31, 59, 90, 120, 151, 181, 212, 243, 273, 304, 334][m - 1] + if m > 2 {
        l
    } else {
        0
    }
}

/// A year has a day more where it is a leap year.
proof fn lemma_year_len(y: int)
    ensures
        march_days(y) - march_days(y - 1) == if leap(y) {
            366int
        } else {
            365int
        },
{
    let p = y - 1;
}

proof fn lemma_month_starts(y: int, m: int)
    requires
        1 <= m <= 12,
    ensures
        forall|d: int| #[trigger]
            day_number(y, m, d) == day_number(y, 1, 1) + year_day(y, m) + d - 1,
{
    lemma_year_len(y);
    lemma_months(
        if m <= 2 {
            m + 9
        } else {
            m - 3
        },
    );
    lemma_months(10);
}

/// A date lies within its year.
proof fn lemma_year_start(y: int, m: int, d: int)
    requires
        1 <= m <= 12,
        1 <= d <= month_days(y, m),
    ensures
        day_number(y, 1, 1) <= day_number(y, m, d) < day_number(y + 1, 1, 1),
{
    lemma_month_starts(y, m);
    lemma_year_len(y);
    lemma_months(10);
}

proof fn lemma_years_grow(a: int, b: int)
    requires
        a <= b,
    ensures
        day_number(a, 1, 1) <= day_number(b, 1, 1),
    decreases b - a,
{
    if a < b {
        lemma_years_grow(a, b - 1);
        lemma_year_start(b - 1, 1, 1);
    }
}

/// Division of a negative number, by that of a number that is not.
proof fn lemma_floor(a: int, b: int)
    requires
        a < 0,
        b > 0,
    ensures
        a / b == -((-(a + 1)) / b) - 1,
        a % b == b - 1 - (-(a + 1)) % b,
        0 <= (-(a + 1)) / b <= -(a + 1),
{
    let n = -(a + 1);
    let q = n / b;
    let r = n % b;
    lemma_fundamental_div_mod(n, b);
    lemma_mod_bound(n, b);
    assert(a == b * (-q - 1) + (b - 1 - r)) by (nonlinear_arith)
        requires
            n == -(a + 1),
            n == b * q + r,
    ;
    lemma_fundamental_div_mod_converse(a, b, -q - 1, b - 1 - r);
    assert(0 <= q <= n) by (nonlinear_arith)
        requires
            n == b * q + r,
            b >= 1,
            0 <= r < b,
            n >= 0,
    ;
}

/// The quotient rounded down.
pub(crate) fn floor_div(a: i64, b: i64) -> (r: i64)
    requires
        b > 0,
    ensures
        r == a as int / b as int,
{
    if a >= 0 {
        a / b
    } else {
        proof {
            lemma_floor(a as int, b as int);
        }
        -((-(a + 1)) / b) - 1
    }
}

/// The remainder of the quotient rounded down.
pub(crate) fn floor_mod(a: i64, b: i64) -> (r: i64)
    requires
        b > 0,
    ensures
        r == a as int % b as int,
        0 <= r < b,
{
    proof {
        lemma_mod_bound(a as int, b as int);
    }
    if a >= 0 {
        a % b
    } else {
        proof {
            lemma_floor(a as int, b as int);
        }
        b - 1 - (-(a + 1)) % b
    }
}

/// The civil date of a day number: year, month and day.
fn civil_from_days(z: i64) -> (r: (i64, u32, u32))
    requires
        -0x4000_0000_0000_0000 <= z <= 0x4000_0000_0000_0000,
    ensures
        is_civil(z as int, r.0 as int, r.1 as int, r.2 as int),
{
    proof {
        lemma_civil(z as int);
    }
    let w: i64 = z + 719_468;
    let era: i64 = floor_div(w, 146_097);
    proof {
        lemma_fundamental_div_mod(w as int, 146_097);
    }
    let doe: i64 = w - era * 146_097;
    let yoe: i64 = (doe - doe / 1460 + doe / 36_524 - doe / 146_096) / 365;
    let y: i64 = yoe + era * 400;
    let doy: i64 = doe - (365 * yoe + yoe / 4 - yoe / 100);
    let mp: i64 = (5 * doy + 2) / 153;
    let d: u32 = (doy - (153 * mp + 2) / 5 + 1) as u32;
    let m: u32 = if mp < 10 {
        (mp + 3) as u32
    } else {
        (mp - 9) as u32
    };
    (
        if m <= 2 {
            y + 1
        } else {
            y
        },
        m,
        d,
    )
}

/// An instant's facets under a frame.
#[derive(Clone, Debug, PartialEq)]
pub struct Stamp {
    /// Local date and time with the offset, as `2023-05-30 08:40 +09:00`.
    pub iso: String,
    pub weekday: &'static str,
    pub in_business_hours: bool,
    /// The fiscal year, named after the calendar year that it starts in.
    pub fiscal_year: i64,
    /// From 1 to 4.
    pub fiscal_quarter: u32,
    /// Days from this day to the question's day; negative where this day is later.
    pub rel_days_to_asof: i64,
}

/// A number in decimal, with zeros after its sign so that the whole is at least `width` long.
pub open spec fn padded(n: int, width: nat) -> Seq<char> {
    let digits = decimal(
        if n < 0 {
            (-n) as nat
        } else {
            n as nat
        },
    );
    let sign = if n < 0 {
        seq!['-']
    } else {
        Seq::<char>::empty()
    };
    let zeros = if sign.len() + digits.len() < width {
        (width - sign.len() - digits.len()) as nat
    } else {
        0
    };
    sign + Seq::new(zeros, |i: int| '0') + digits
}

fn push_padded(out: &mut String, n: i64, width: usize)
    ensures
        final(out)@ == old(out)@ + padded(n as int, width as nat),
{
    let m: u64 = if n < 0 {
        (-(n + 1)) as u64 + 1
    } else {
        n as u64
    };
    let mut digits = String::new();
    push_u64(&mut digits, m);
    assert(digits@ =~= decimal(m as nat));
    let mut have: usize = to_chars(digits.as_str()).len();
    let ghost sign = if n < 0 {
        seq!['-']
    } else {
        Seq::<char>::empty()
    };
    if n < 0 {
        out.push('-');
        if have < usize::MAX {
            have += 1;
        }
    }
    let ghost head = out@;
    assert(head =~= old(out)@ + sign);
    let ghost zeros = if sign.len() + digits@.len() < width {
        (width - sign.len() - digits@.len()) as nat
    } else {
        0
    };
    let ghost z = Seq::new(zeros, |i: int| '0');
    let mut i: usize = 0;
    let missing: usize = if have < width {
        width - have
    } else {
        0
    };
    assert(z.take(0) =~= Seq::<char>::empty());
    while i < missing
        invariant
            i <= missing,
            missing == zeros,
            z == Seq::new(zeros, |i: int| '0'),
            out@ == head + z.take(i as int),
        decreases missing - i,
    {
        out.push('0');
        assert(z.take(i + 1) =~= z.take(i as int).push('0'));
        assert(out@ =~= head + z.take(i + 1));
        i += 1;
    }
    assert(z.take(i as int) =~= z);
    push_str(out, digits.as_str());
    assert(out@ =~= old(out)@ + padded(n as int, width as nat));
}

fn push_char(out: &mut String, c: char)
    ensures
        final(out)@ == old(out)@ + seq![c],
{
    out.push(c);
    assert(out@ =~= old(out)@ + seq![c]);
}

/// The name of a weekday, Sunday being 0.
pub open spec fn weekday_name(w: int) -> Seq<char> {
    if w == 0 {
        "Sun"@
    } else if w == 1 {
        "Mon"@
    } else if w == 2 {
        "Tue"@
    } else if w == 3 {
        "Wed"@
    } else if w == 4 {
        "Thu"@
    } else if w == 5 {
        "Fri"@
    } else {
        "Sat"@
    }
}

/// The weekday of a day: day 0, 1970-01-01, was a Thursday.
pub open spec fn weekday_of(day: int) -> int {
    (day + 4) % 7
}

fn weekday_text(w: i64) -> (r: &'static str)
    requires
        0 <= w < 7,
    ensures
        r@ == weekday_name(w as int),
{
    if w == 0 {
        "Sun"
    } else if w == 1 {
        "Mon"
    } else if w == 2 {
        "Tue"
    } else if w == 3 {
        "Wed"
    } else if w == 4 {
        "Thu"
    } else if w == 5 {
        "Fri"
    } else {
        "Sat"
    }
}

/// The local seconds of an instant.
pub open spec fn local_seconds(c: Calendar, t: i64) -> int {
    t + c.utc_offset_min * 60
}

/// The date and time text of a stamp.
pub open spec fn iso_text(c: Calendar, y: int, m: int, d: int, secs: int) -> Seq<char> {
    let off: int = if c.utc_offset_min < 0 {
        -(c.utc_offset_min as int)
    } else {
        c.utc_offset_min as int
    };
    padded(y, 4) + seq!['-'] + padded(m, 2) + seq!['-'] + padded(d, 2) + seq![' '] + padded(
        secs / 3600,
        2,
    ) + seq![':'] + padded((secs % 3600) / 60, 2) + seq![' '] + seq![
        if c.utc_offset_min < 0 {
            '-'
        } else {
            '+'
        },
    ] + padded(off / 60, 2) + seq![':'] + padded(off % 60, 2)
}

/// Whether `s` is the stamp of `t` relative to `as_of`.
pub open spec fn is_stamp(c: Calendar, t: i64, as_of: i64, s: Stamp) -> bool {
    let day = local_seconds(c, t) / 86400;
    let secs = local_seconds(c, t) % 86400;
    exists|y: int, m: int, d: int| #[trigger]
        is_civil(day, y, m, d) && {
            &&& s.iso@ == iso_text(c, y, m, d, secs)
            &&& s.weekday@ == weekday_name(weekday_of(day))
            &&& s.in_business_hours == (1 <= weekday_of(day) <= 5 && c.business_start_min <= secs
                / 60 < c.business_end_min)
            &&& s.fiscal_year == (if m >= c.fiscal_year_start_month {
                y
            } else {
                y - 1
            })
            &&& s.fiscal_quarter == (m - c.fiscal_year_start_month) % 12 / 3 + 1
            &&& s.rel_days_to_asof == local_seconds(c, as_of) / 86400 - day
        }
}

impl Calendar {
    fn iso_of(&self, y: i64, m: u32, d: u32, secs: i64) -> (iso: String)
        requires
            0 <= secs < 86400,
        ensures
            iso@ == iso_text(*self, y as int, m as int, d as int, secs as int),
    {
        let off: i64 = if self.utc_offset_min < 0 {
            -(self.utc_offset_min as i64)
        } else {
            self.utc_offset_min as i64
        };
        let sign: char = if self.utc_offset_min < 0 {
            '-'
        } else {
            '+'
        };
        let mut iso = String::new();
        push_padded(&mut iso, y, 4);
        assert(iso@ =~= padded(y as int, 4));
        push_char(&mut iso, '-');
        push_padded(&mut iso, m as i64, 2);
        push_char(&mut iso, '-');
        push_padded(&mut iso, d as i64, 2);
        push_char(&mut iso, ' ');
        push_padded(&mut iso, secs / 3600, 2);
        push_char(&mut iso, ':');
        push_padded(&mut iso, (secs % 3600) / 60, 2);
        push_char(&mut iso, ' ');
        push_char(&mut iso, sign);
        push_padded(&mut iso, off / 60, 2);
        push_char(&mut iso, ':');
        push_padded(&mut iso, off % 60, 2);
        iso
    }

    /// The facets of instant `t` under this frame, relative to the question's instant `as_of`.
    pub fn stamp(&self, t: i64, as_of: i64) -> (r: Stamp)
        requires
            i64::MIN <= local_seconds(*self, t) <= i64::MAX,
            i64::MIN <= local_seconds(*self, as_of) <= i64::MAX,
        ensures
            is_stamp(*self, t, as_of, r),
    {
        let shift: i64 = self.utc_offset_min as i64 * 60;
        let local: i64 = t + shift;
        let days: i64 = floor_div(local, 86_400);
        let secs: i64 = floor_mod(local, 86_400);
        let (y, m, d) = civil_from_days(days);
        let weekday_idx: i64 = floor_mod(days + 4, 7);
        let weekday = weekday_text(weekday_idx);
        let min_of_day: i64 = secs / 60;
        let in_business_hours = 1 <= weekday_idx && weekday_idx <= 5 && min_of_day
            >= self.business_start_min as i64 && min_of_day < self.business_end_min as i64;
        let fy_start: i64 = self.fiscal_year_start_month as i64;
        let months_in: i64 = floor_mod(m as i64 - fy_start, 12);
        proof {
            lemma_year_bound(days as int, y as int, m as int, d as int);
        }
        let fiscal_year: i64 = if m as i64 >= fy_start {
            y
        } else {
            y - 1
        };
        let fiscal_quarter: u32 = (months_in / 3 + 1) as u32;
        let iso = self.iso_of(y, m, d, secs);
        let asof_local: i64 = as_of + shift;
        let rel_days_to_asof: i64 = floor_div(asof_local, 86_400) - days;
        let r = Stamp {
            iso,
            weekday,
            in_business_hours,
            fiscal_year,
            fiscal_quarter,
            rel_days_to_asof,
        };
        assert(is_civil(local_seconds(*self, t) / 86400, y as int, m as int, d as int));
        r
    }

    /// One line for a reader, as
    /// `2023-05-30 08:40 +09:00 (Tue, 26 days before, business hours, FY2023 Q2)`.
    pub fn tag(&self, t: i64, as_of: i64) -> (r: String)
        requires
            i64::MIN <= local_seconds(*self, t) <= i64::MAX,
            i64::MIN <= local_seconds(*self, as_of) <= i64::MAX,
        ensures
            exists|s: Stamp| #[trigger] is_stamp(*self, t, as_of, s) && r@ == tag_text(s),
    {
        let s = self.stamp(t, as_of);
        let mut out = String::new();
        push_str(&mut out, s.iso.as_str());
        push_str(&mut out, " (");
        push_str(&mut out, s.weekday);
        push_str(&mut out, ", ");
        if s.rel_days_to_asof == 0 {
            push_str(&mut out, "same day");
        } else if s.rel_days_to_asof > 0 {
            push_i64(&mut out, s.rel_days_to_asof);
            push_str(&mut out, " days before");
        } else {
            push_i64(&mut out, -s.rel_days_to_asof);
            push_str(&mut out, " days after");
        }
        if s.in_business_hours {
            push_str(&mut out, ", business hours");
        }
        push_str(&mut out, ", FY");
        push_i64(&mut out, s.fiscal_year);
        push_str(&mut out, " Q");
        push_u64(&mut out, s.fiscal_quarter as u64);
        push_str(&mut out, ")");
        proof {
            assert(out@ =~= tag_text(s));
        }
        out
    }
}

/// The line of a stamp.
pub open spec fn tag_text(s: Stamp) -> Seq<char> {
    s.iso@ + " ("@ + s.weekday@ + ", "@ + rel_text(s.rel_days_to_asof as int) + (
    if s.in_business_hours {
        ", business hours"@
    } else {
        Seq::empty()
    }) + ", FY"@ + signed_decimal(s.fiscal_year as int) + " Q"@ + decimal(s.fiscal_quarter as nat)
        + ")"@
}

/// How a day lies to the question's day.
pub open spec fn rel_text(n: int) -> Seq<char> {
    if n == 0 {
        "same day"@
    } else if n > 0 {
        signed_decimal(n) + " days before"@
    } else {
        signed_decimal(-n) + " days after"@
    }
}

/// A date's year is no further off than its day number.
proof fn lemma_year_bound(z: int, y: int, m: int, d: int)
    requires
        is_civil(z, y, m, d),
        -0x1_0000_0000_0000 <= z <= 0x1_0000_0000_0000,
    ensures
        -0x1_0000_0000_0000 < y < 0x1_0000_0000_0000,
{
    lemma_months(
        if m <= 2 {
            m + 9
        } else {
            m - 3
        },
    );
}

} // verus!
