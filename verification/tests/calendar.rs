//! Civil stamps.
use stromadb::calendar::Calendar;

// 2023-05-30 08:40 JST == 2023-05-29 23:40 UTC == epoch 1685403600
const T: i64 = 1_685_403_600;

#[test]
fn utc_date_weekday() {
    let c = Calendar::default(); // UTC
    let s = c.stamp(T, T);
    assert!(s.iso.starts_with("2023-05-29 23:40 +00:00"), "{}", s.iso);
    assert_eq!(s.weekday, "Mon"); // 2023-05-29 is a Monday
    assert_eq!(s.rel_days_to_asof, 0);
}

#[test]
fn jst_frame_shifts_local_civil_day() {
    let c = Calendar {
        utc_offset_min: 540,
        ..Calendar::default()
    };
    let s = c.stamp(T, T);
    assert!(s.iso.starts_with("2023-05-30 08:40 +09:00"), "{}", s.iso);
    assert_eq!(s.weekday, "Tue"); // crosses midnight into Tuesday in Tokyo
    assert!(!s.in_business_hours); // 08:40 is before the default 09:00 start
}

#[test]
fn business_hours_flag() {
    let c = Calendar {
        utc_offset_min: 540,
        business_start_min: 480,
        ..Calendar::default()
    }; // 08:00 start
    assert!(c.stamp(T, T).in_business_hours); // Tue 08:40, window 08:00-18:00
}

#[test]
fn relative_days() {
    let c = Calendar::default();
    let asof = T + 26 * 86_400;
    assert_eq!(c.stamp(T, asof).rel_days_to_asof, 26); // T is 26 days before as_of
}

#[test]
fn fiscal_year_april_start() {
    let c = Calendar {
        fiscal_year_start_month: 4,
        ..Calendar::default()
    };
    let s = c.stamp(T, T); // 2023-05-29 -> FY2023 (Apr-start), Q1 (Apr-Jun)
    assert_eq!(s.fiscal_year, 2023);
    assert_eq!(s.fiscal_quarter, 1);
    // a January date falls in the prior fiscal year, Q4
    let jan = 1_672_617_600; // 2023-01-02 00:00 UTC
    let sj = c.stamp(jan, jan);
    assert_eq!(sj.fiscal_year, 2022);
    assert_eq!(sj.fiscal_quarter, 4);
}

#[test]
fn a_tag_puts_the_stamp_in_words() {
    let c = Calendar::default();
    let s = c.stamp(T, T + 86_400);
    assert_eq!(s.rel_days_to_asof, 1);
    let tag = c.tag(T, T);
    assert!(tag.contains("2023-05-29") && tag.contains("Mon"), "{tag}");
    // before the epoch, and on a leap day
    assert!(c.stamp(-1, 0).iso.starts_with("1969-12-31 23:59 +00:00"));
    assert!(c.stamp(1_709_164_800, 0).iso.starts_with("2024-02-29 00:00 +00:00"));
}
