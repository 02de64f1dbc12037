use worklog::date::Date;

fn date(y: i32, m: u32, d: u32) -> Date {
    Date::from_ymd_opt(y, m, d).unwrap()
}

#[test]
fn from_ymd_opt_accepts_leap_days_of_leap_years_only() {
    assert!(Date::from_ymd_opt(2024, 2, 29).is_some());
    assert!(Date::from_ymd_opt(2000, 2, 29).is_some());
    assert!(Date::from_ymd_opt(1900, 2, 29).is_none());
    assert!(Date::from_ymd_opt(2015, 2, 29).is_none());
    assert!(Date::from_ymd_opt(-4, 2, 29).is_some());
}

#[test]
fn from_ymd_opt_rejects_days_and_months_out_of_range() {
    assert!(Date::from_ymd_opt(2026, 0, 1).is_none());
    assert!(Date::from_ymd_opt(2026, 13, 1).is_none());
    assert!(Date::from_ymd_opt(2026, 4, 31).is_none());
    assert!(Date::from_ymd_opt(2026, 1, 0).is_none());
    assert!(Date::from_ymd_opt(2026, 12, 31).is_some());
}

#[test]
fn from_ymd_opt_rejects_years_out_of_range() {
    assert!(Date::from_ymd_opt(400000, 1, 1).is_none());
    assert!(Date::from_ymd_opt(262142, 12, 31).is_some());
    assert!(Date::from_ymd_opt(262143, 1, 1).is_none());
    assert!(Date::from_ymd_opt(-262143, 1, 1).is_some());
    assert!(Date::from_ymd_opt(-262144, 12, 31).is_none());
}

#[test]
fn date_reports_its_parts() {
    let d = date(2026, 3, 9);
    assert_eq!((d.year(), d.month(), d.day()), (2026, 3, 9));
    assert_eq!(d.ymd(), (2026, 3, 9));
}

#[test]
fn short_text_does_not_pad_the_day() {
    assert_eq!(date(2026, 3, 9).short_text(), "Mar 9, 2026");
    assert_eq!(date(2025, 12, 15).short_text(), "Dec 15, 2025");
}

#[test]
fn iso_text_pads_month_and_day() {
    assert_eq!(date(2026, 3, 9).iso_text(), "2026-03-09");
    assert_eq!(date(12, 7, 4).iso_text(), "0012-07-04");
}

#[test]
fn iso_week_gives_week_and_iso_year() {
    assert_eq!(date(2026, 3, 9).iso_week(), (11, 2026));
    assert_eq!(date(2026, 3, 2).iso_week(), (10, 2026));
    assert_eq!(date(2025, 12, 29).iso_week(), (1, 2026));
    assert_eq!(date(2021, 1, 1).iso_week(), (53, 2020));
}

#[test]
fn is_before_orders_by_year_month_day() {
    assert!(date(2025, 12, 31).is_before(&date(2026, 1, 1)));
    assert!(date(2026, 1, 31).is_before(&date(2026, 2, 1)));
    assert!(date(2026, 2, 1).is_before(&date(2026, 2, 2)));
    assert!(!date(2026, 2, 2).is_before(&date(2026, 2, 2)));
    assert!(!date(2026, 2, 3).is_before(&date(2026, 2, 2)));
}

#[test]
fn iso_week_at_the_edges_of_the_calendar() {
    assert_eq!(date(0, 1, 1).iso_week(), (52, -1));
    assert_eq!(date(0, 1, 3).iso_week(), (1, 0));
    assert_eq!(date(-1, 12, 31).iso_week(), (52, -1));
    assert_eq!(date(-100, 3, 1).iso_week(), (9, -100));
    assert_eq!(date(10000, 1, 1).iso_week(), (52, 9999));
    assert_eq!(date(262142, 12, 31).iso_week(), (1, 262143));
    assert_eq!(date(-262143, 1, 1).iso_week(), (1, -262143));
    assert_eq!(date(2020, 12, 31).iso_week(), (53, 2020));
    assert_eq!(date(2024, 12, 30).iso_week(), (1, 2025));
}

#[test]
fn iso_weeks_never_go_back() {
    let mut prev = date(2019, 12, 20).iso_week();
    for (y, m, d) in [(2019, 12, 30), (2020, 1, 5), (2020, 1, 6), (2020, 12, 31), (2021, 1, 3), (2021, 1, 4)] {
        let w = date(y, m, d).iso_week();
        assert!((prev.1, prev.0) <= (w.1, w.0), "{prev:?} then {w:?}");
        prev = w;
    }
}
