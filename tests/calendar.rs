use hyprlog::clock::{local_day, local_midnight, now_millis, shift_day, DayKey};
use hyprlog::interval::{days_from, window_string, Interval};

#[test]
fn days_shift_across_month_and_year() {
    let leap = DayKey { year: 2024, month: 2, day: 28 };
    assert_eq!(shift_day(leap, 1), Some(DayKey { year: 2024, month: 2, day: 29 }));
    let eve = DayKey { year: 2024, month: 12, day: 31 };
    assert_eq!(shift_day(eve, 1), Some(DayKey { year: 2025, month: 1, day: 1 }));
    assert_eq!(shift_day(eve, -365), Some(DayKey { year: 2024, month: 1, day: 1 }));
    assert_eq!(shift_day(DayKey { year: 2023, month: 2, day: 30 }, 1), None);
}

#[test]
fn clock_reads_the_present() {
    let now = now_millis().unwrap();
    assert!(now > 1_600_000_000_000);
    let today = local_day(now).unwrap();
    assert!((1..=12).contains(&today.month));
    let midnight = local_midnight(today).unwrap();
    assert!(midnight <= now);
    assert_eq!(local_day(midnight), Some(today));
}

#[test]
fn today_window_spans_one_local_day() {
    let w = Interval::from_day_count(1).unwrap();
    let width = w.width();
    assert!(width >= 23 * 3_600_000 && width <= 25 * 3_600_000);
    assert!(w.contains_utc_timestamp_millis(now_millis().unwrap() as u64));
    assert_eq!(w.date_str().len(), 10);
    let week = Interval::from_day_count(7).unwrap();
    assert_eq!(week.end, w.end);
    assert_eq!(week.date_str().len(), 23);
    let days = week.days();
    assert_eq!(days.len(), 7);
    assert_eq!(days[6], local_day(now_millis().unwrap()).unwrap());
    assert_eq!(w.days().len(), 1);
    assert_eq!(Interval { start: 10, end: 5 }.days().len(), 1);
    let names = week.day_file_names();
    assert_eq!(names.len(), 7);
    assert!(names[6].ends_with(".csv"));
    assert!(w.is_default());
    assert!(!week.is_default());
    let d = DayKey { year: 2024, month: 2, day: 27 };
    assert_eq!(
        days_from(d, DayKey { year: 2024, month: 3, day: 1 }, 10),
        vec![d, DayKey { year: 2024, month: 2, day: 28 }, DayKey { year: 2024, month: 2, day: 29 }, DayKey { year: 2024, month: 3, day: 1 }]
    );
    assert_eq!(days_from(d, DayKey { year: 2024, month: 3, day: 1 }, 2).len(), 2);
    assert_eq!(days_from(d, d, 0), vec![]);
    assert_eq!(window_string(None, local_day(0)), "");
    let mut v = w;
    v.set_days(0);
    assert_eq!(v, w);
}
