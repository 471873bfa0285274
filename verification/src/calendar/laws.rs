//! What a stamp says, by the local day and minute of its instant.
use super::{
    is_civil, is_stamp, iso_text, law_civil_date_unique, local_seconds, rel_text, weekday_name,
    weekday_of, Calendar, Stamp,
};
use crate::text::decimal;
use vstd::arithmetic::div_mod::lemma_fundamental_div_mod_converse;
use vstd::prelude::*;

verus! {

/// The week goes round: each day has the name after that of the day before, after seven days the
/// names repeat, and 1970-01-01 was a Thursday.
pub proof fn law_week_goes_round(day: int)
    ensures
        weekday_name(weekday_of(0)) == "Thu"@,
        weekday_name(weekday_of(day + 7)) == weekday_name(weekday_of(day)),
        weekday_of(day) == 0 ==> weekday_name(weekday_of(day)) == "Sun"@ && weekday_name(
            weekday_of(day + 1),
        ) == "Mon"@ && weekday_name(weekday_of(day + 2)) == "Tue"@ && weekday_name(
            weekday_of(day + 3),
        ) == "Wed"@ && weekday_name(weekday_of(day + 4)) == "Thu"@ && weekday_name(
            weekday_of(day + 5),
        ) == "Fri"@ && weekday_name(weekday_of(day + 6)) == "Sat"@,
        weekday_of(day + 1) == weekday_of(day) + 1 || (weekday_of(day) == 6 && weekday_of(day + 1)
            == 0),
        0 <= weekday_of(day) < 7,
{
}

/// Whether an instant falls on a local day, in a minute of it: `second` seconds into that.
pub open spec fn falls_on(c: Calendar, t: i64, day: int, minute: int, second: int) -> bool {
    &&& 0 <= minute < 1440
    &&& 0 <= second < 60
    &&& t + 60 * c.utc_offset_min == 86400 * day + 60 * minute + second
}

/// The facets of an instant, by where it falls. Its day of the week is that of its local day. It is in
/// business hours from Monday to Friday, from the minute that they start in up to, but not in, the
/// minute that they end in. The distance is counted in local days, and is positive to a later
/// question. The date and the time of day in the text are those of the local day and minute.
pub proof fn law_stamp_by_day(
    c: Calendar,
    t: i64,
    as_of: i64,
    s: Stamp,
    day: int,
    minute: int,
    second: int,
    asked_day: int,
    asked_minute: int,
    asked_second: int,
    y: int,
    m: int,
    d: int,
)
    requires
        is_stamp(c, t, as_of, s),
        falls_on(c, t, day, minute, second),
        falls_on(c, as_of, asked_day, asked_minute, asked_second),
        is_civil(day, y, m, d),
    ensures
        s.weekday@ == weekday_name(weekday_of(day)),
        s.in_business_hours <==> {
            let w = (day + 4) % 7;
            w != 0 && w != 6 && c.business_start_min <= minute && minute < c.business_end_min
        },
        s.rel_days_to_asof == asked_day - day,
        s.iso@ == iso_text(c, y, m, d, 60 * minute + second),
{
    lemma_places(c, t, day, minute, second);
    lemma_places(c, as_of, asked_day, asked_minute, asked_second);
    let (y2, m2, d2) = choose|y2: int, m2: int, d2: int| #[trigger]
        is_civil(day, y2, m2, d2) && s.iso@ == iso_text(c, y2, m2, d2, 60 * minute + second);
    law_civil_date_unique(day, y, m, d, y2, m2, d2);
}

proof fn lemma_places(c: Calendar, t: i64, day: int, minute: int, second: int)
    requires
        falls_on(c, t, day, minute, second),
    ensures
        local_seconds(c, t) / 86400 == day,
        local_seconds(c, t) % 86400 == 60 * minute + second,
        (60 * minute + second) / 60 == minute,
{
    lemma_fundamental_div_mod_converse(
        local_seconds(c, t),
        86400,
        day,
        60 * minute + second,
    );
}

/// The fiscal frame counts months: a date lies some months after the month that its fiscal year starts
/// in, fewer than twelve, and its quarter is the number of whole quarters among them and one.
pub proof fn law_fiscal_frame(c: Calendar, t: i64, as_of: i64, s: Stamp, y: int, m: int, d: int, months: int)
    requires
        1 <= c.fiscal_year_start_month <= 12,
        is_stamp(c, t, as_of, s),
        is_civil(local_seconds(c, t) / 86400, y, m, d),
        0 <= months < 12,
        12 * s.fiscal_year + c.fiscal_year_start_month + months == 12 * y + m,
    ensures
        3 * (s.fiscal_quarter - 1) <= months < 3 * s.fiscal_quarter,
{
    let day = local_seconds(c, t) / 86400;
    let (y2, m2, d2) = choose|y2: int, m2: int, d2: int| #[trigger]
        is_civil(day, y2, m2, d2) && s.fiscal_quarter == (m2 - c.fiscal_year_start_month) % 12 / 3
            + 1 && s.fiscal_year == (if m2 >= c.fiscal_year_start_month {
            y2
        } else {
            y2 - 1
        });
    law_civil_date_unique(day, y, m, d, y2, m2, d2);
}

/// A date has such a place in the fiscal frame: the fiscal year is the one that it falls in.
pub proof fn law_fiscal_year_holds(c: Calendar, t: i64, as_of: i64, s: Stamp, y: int, m: int, d: int)
    requires
        1 <= c.fiscal_year_start_month <= 12,
        is_stamp(c, t, as_of, s),
        is_civil(local_seconds(c, t) / 86400, y, m, d),
    ensures
        0 <= 12 * y + m - (12 * s.fiscal_year + c.fiscal_year_start_month) < 12,
        1 <= s.fiscal_quarter <= 4,
{
    let day = local_seconds(c, t) / 86400;
    let (y2, m2, d2) = choose|y2: int, m2: int, d2: int| #[trigger]
        is_civil(day, y2, m2, d2) && s.fiscal_quarter == (m2 - c.fiscal_year_start_month) % 12 / 3
            + 1 && s.fiscal_year == (if m2 >= c.fiscal_year_start_month {
            y2
        } else {
            y2 - 1
        });
    law_civil_date_unique(day, y, m, d, y2, m2, d2);
}

/// The distance to a question is told by its size and its side.
pub proof fn law_distance_is_told(n: nat)
    requires
        n > 0,
    ensures
        rel_text(0) == "same day"@,
        rel_text(n as int) == decimal(n) + " days before"@,
        rel_text(-(n as int)) == decimal(n) + " days after"@,
{
}

} // verus!
