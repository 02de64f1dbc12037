use worklog::date::Date;
use worklog::parser::{parse_worklog, DayEntry, WeekEntry, WorkLog};
use worklog::writer::write_worklog;

fn date(y: i32, m: u32, d: u32) -> Date {
    Date::from_ymd_opt(y, m, d).unwrap()
}

#[test]
fn test_write_empty_worklog() {
    let worklog = WorkLog { weeks: vec![] };
    let result = write_worklog(&worklog);
    assert_eq!(result, "", "empty worklog should produce empty string");
}

#[test]
fn test_write_single_week_no_days() {
    let worklog = WorkLog {
        weeks: vec![WeekEntry {
            week_number: 1,
            iso_year: None,
            days: vec![],
        }],
    };
    let result = write_worklog(&worklog);
    assert_eq!(
        result, "## Week 1\n",
        "single week with no days produces header only"
    );
}

#[test]
fn test_write_single_week_one_day_one_item() {
    let worklog = WorkLog {
        weeks: vec![WeekEntry {
            week_number: 1,
            iso_year: None,
            days: vec![DayEntry {
                date: date(2026, 1, 5),
                items: vec!["Did a thing".to_string()],
            }],
        }],
    };
    let result = write_worklog(&worklog);
    let expected = "## Week 1\n\nJan 5, 2026\n\n* Did a thing\n";
    assert_eq!(result, expected, "single week, one day, one item");
}

#[test]
fn test_write_single_day_with_single_digit_date() {
    let worklog = WorkLog {
        weeks: vec![WeekEntry {
            week_number: 11,
            iso_year: None,
            days: vec![DayEntry {
                date: date(2026, 3, 9),
                items: vec!["Attended standup".to_string()],
            }],
        }],
    };
    let result = write_worklog(&worklog);
    let expected = "## Week 11\n\nMar 9, 2026\n\n* Attended standup\n";
    assert_eq!(result, expected, "single-digit day must not be zero-padded");
}

#[test]
fn test_write_single_week_one_day_multiple_items() {
    let worklog = WorkLog {
        weeks: vec![WeekEntry {
            week_number: 5,
            iso_year: None,
            days: vec![DayEntry {
                date: date(2026, 2, 2),
                items: vec![
                    "Item one".to_string(),
                    "Item two".to_string(),
                    "Item three".to_string(),
                ],
            }],
        }],
    };
    let result = write_worklog(&worklog);
    let expected = "## Week 5\n\nFeb 2, 2026\n\n* Item one\n* Item two\n* Item three\n";
    assert_eq!(result, expected, "single week, one day, multiple items");
}

#[test]
fn test_write_single_week_multiple_days() {
    let worklog = WorkLog {
        weeks: vec![WeekEntry {
            week_number: 10,
            iso_year: None,
            days: vec![
                DayEntry {
                    date: date(2026, 3, 2),
                    items: vec!["Morning standup".to_string()],
                },
                DayEntry {
                    date: date(2026, 3, 3),
                    items: vec!["Code review".to_string()],
                },
            ],
        }],
    };
    let result = write_worklog(&worklog);
    let expected = "## Week 10\n\nMar 2, 2026\n\n* Morning standup\n\nMar 3, 2026\n\n* Code review\n";
    assert_eq!(result, expected, "single week with multiple days");
}

#[test]
fn test_write_multiple_weeks() {
    let worklog = WorkLog {
        weeks: vec![
            WeekEntry {
                week_number: 1,
                iso_year: None,
                days: vec![DayEntry {
                    date: date(2026, 1, 5),
                    items: vec!["Item A".to_string()],
                }],
            },
            WeekEntry {
                week_number: 2,
                iso_year: None,
                days: vec![DayEntry {
                    date: date(2026, 1, 12),
                    items: vec!["Item B".to_string()],
                }],
            },
        ],
    };
    let result = write_worklog(&worklog);
    let expected = "## Week 1\n\nJan 5, 2026\n\n* Item A\n\n## Week 2\n\nJan 12, 2026\n\n* Item B\n";
    assert_eq!(result, expected, "multiple weeks separated by blank line");
}

#[test]
fn test_round_trip_parse_write_parse() {
    let original = "## Week 1\n\nJan 5, 2026\n\n* Item A\n\n## Week 2\n\nJan 12, 2026\n\n* Item B\n* Item C\n";
    let parsed_first = parse_worklog(original).expect("first parse should succeed");
    let written = write_worklog(&parsed_first);
    let parsed_second = parse_worklog(&written).expect("second parse should succeed");
    assert_eq!(
        parsed_first, parsed_second,
        "round-trip parse→write→parse must preserve all data"
    );
}

#[test]
fn write_then_parse_gives_back_the_worklog() {
    let worklog = WorkLog {
        weeks: vec![
            WeekEntry {
                week_number: 52,
                iso_year: None,
                days: vec![
                    DayEntry { date: date(1999, 12, 31), items: vec!["Party, prep".to_string()] },
                    DayEntry { date: date(2000, 2, 29), items: vec![] },
                ],
            },
            WeekEntry { week_number: 0, iso_year: None, days: vec![] },
            WeekEntry {
                week_number: 3,
                iso_year: None,
                days: vec![DayEntry {
                    date: date(12, 7, 4),
                    items: vec!["## Week 9 in an item".to_string(), "* starred".to_string()],
                }],
            },
        ],
    };
    let written = write_worklog(&worklog);
    assert!(written.contains("Jul 4, 0012"));
    assert_eq!(parse_worklog(&written).unwrap(), worklog);
}

#[test]
fn write_drops_iso_year() {
    let worklog = WorkLog {
        weeks: vec![WeekEntry { week_number: 1, iso_year: Some(2026), days: vec![] }],
    };
    let written = write_worklog(&worklog);
    assert_eq!(written, "## Week 1\n");
    assert_eq!(parse_worklog(&written).unwrap().weeks[0].iso_year, None);
}
